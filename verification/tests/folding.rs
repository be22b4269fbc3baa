use versioned_crud::error::ProjectionError;
use versioned_crud::projector::Projector;
use versioned_crud::typings::{Event, CRUD};

/// Known by its name alone; the age is content.
#[derive(Clone, Debug)]
struct Person {
    name: String,
    age: u8,
}

impl PartialEq for Person {
    fn eq(&self, other: &Self) -> bool {
        self.name == other.name
    }
}

fn person(name: &str, age: u8) -> Person {
    Person { name: String::from(name), age }
}

fn on(operation: CRUD, data: Person) -> Event<Person> {
    Event { operation, date: 0, data }
}

fn content(list: &Vec<Person>) -> Vec<(String, u8)> {
    list.iter().map(|p| (p.name.clone(), p.age)).collect()
}

fn named(pairs: &[(&str, u8)]) -> Vec<(String, u8)> {
    pairs.iter().map(|(n, a)| (String::from(*n), *a)).collect()
}

#[test]
fn create_of_an_absent_entity_appends_it_once() {
    let mut list = vec![person("ada", 36), person("bob", 40)];
    let outcome = Projector::project_one(&mut list, &on(CRUD::Create, person("cy", 7)));
    assert_eq!(outcome, Ok(()));
    assert_eq!(content(&list), named(&[("ada", 36), ("bob", 40), ("cy", 7)]));
    assert_eq!(list.iter().filter(|p| **p == person("cy", 0)).count(), 1);
}

#[test]
fn create_of_a_present_entity_changes_nothing() {
    let mut list = vec![person("ada", 36), person("bob", 40)];
    let outcome = Projector::project_one(&mut list, &on(CRUD::Create, person("ada", 99)));
    assert_eq!(outcome, Err(ProjectionError::DuplicateCreate));
    assert_eq!(content(&list), named(&[("ada", 36), ("bob", 40)]));
}

#[test]
fn update_replaces_in_place() {
    let mut list = vec![person("ada", 36), person("bob", 40), person("cy", 7)];
    let outcome = Projector::project_one(&mut list, &on(CRUD::Update, person("bob", 41)));
    assert_eq!(outcome, Ok(()));
    assert_eq!(content(&list), named(&[("ada", 36), ("bob", 41), ("cy", 7)]));
}

#[test]
fn update_without_a_match_changes_nothing() {
    let mut list = vec![person("ada", 36)];
    let outcome = Projector::project_one(&mut list, &on(CRUD::Update, person("bob", 41)));
    assert_eq!(outcome, Err(ProjectionError::MissingUpdateTarget));
    assert_eq!(content(&list), named(&[("ada", 36)]));
}

#[test]
fn delete_removes_the_match_and_keeps_the_order() {
    let mut list = vec![person("ada", 36), person("bob", 40), person("cy", 7)];
    let outcome = Projector::project_one(&mut list, &on(CRUD::Delete, person("bob", 0)));
    assert_eq!(outcome, Ok(()));
    assert_eq!(content(&list), named(&[("ada", 36), ("cy", 7)]));
}

#[test]
fn delete_without_a_match_changes_nothing() {
    let mut list = vec![person("ada", 36)];
    let outcome = Projector::project_one(&mut list, &on(CRUD::Delete, person("bob", 0)));
    assert_eq!(outcome, Err(ProjectionError::MissingDeleteTarget));
    assert_eq!(content(&list), named(&[("ada", 36)]));
}

#[test]
fn events_on_an_empty_list() {
    let mut list: Vec<Person> = Vec::new();
    assert_eq!(
        Projector::project_one(&mut list, &on(CRUD::Delete, person("ada", 1))),
        Err(ProjectionError::MissingDeleteTarget)
    );
    assert_eq!(
        Projector::project_one(&mut list, &on(CRUD::Update, person("ada", 1))),
        Err(ProjectionError::MissingUpdateTarget)
    );
    assert!(list.is_empty());
    assert_eq!(Projector::project_one(&mut list, &on(CRUD::Create, person("ada", 1))), Ok(()));
    assert_eq!(content(&list), named(&[("ada", 1)]));
    assert_eq!(Projector::project_one(&mut list, &on(CRUD::Delete, person("ada", 2))), Ok(()));
    assert!(list.is_empty());
}

#[test]
fn the_first_of_several_matches_is_the_one_acted_on() {
    let mut list = vec![person("ada", 1), person("bob", 2), person("ada", 3)];
    assert_eq!(Projector::project_one(&mut list, &on(CRUD::Update, person("ada", 9))), Ok(()));
    assert_eq!(content(&list), named(&[("ada", 9), ("bob", 2), ("ada", 3)]));
    assert_eq!(Projector::project_one(&mut list, &on(CRUD::Delete, person("ada", 0))), Ok(()));
    assert_eq!(content(&list), named(&[("bob", 2), ("ada", 3)]));
}

#[test]
fn the_event_keeps_its_entity() {
    let ev = on(CRUD::Create, person("ada", 36));
    let mut list: Vec<Person> = Vec::new();
    assert_eq!(Projector::project_one(&mut list, &ev), Ok(()));
    assert_eq!((ev.data.name.as_str(), ev.data.age), ("ada", 36));
    assert_eq!(ev.operation, CRUD::Create);
}

#[test]
fn folding_a_log_is_folding_its_events_one_by_one() {
    let log = vec![
        on(CRUD::Create, person("ada", 36)),
        on(CRUD::Create, person("bob", 40)),
        on(CRUD::Create, person("ada", 37)),
        on(CRUD::Update, person("ada", 38)),
        on(CRUD::Delete, person("bob", 0)),
        on(CRUD::Delete, person("bob", 0)),
        on(CRUD::Create, person("cy", 7)),
    ];
    let all = Projector::project_all(&log);
    let mut step = Vec::new();
    let mut outcomes = Vec::new();
    for e in log.iter() {
        outcomes.push(Projector::project_one(&mut step, e));
    }
    assert_eq!(content(&all), named(&[("ada", 38), ("cy", 7)]));
    assert_eq!(content(&all), content(&step));
    assert_eq!(
        outcomes,
        vec![
            Ok(()),
            Ok(()),
            Err(ProjectionError::DuplicateCreate),
            Ok(()),
            Ok(()),
            Err(ProjectionError::MissingDeleteTarget),
            Ok(()),
        ]
    );
}

#[test]
fn folding_an_empty_log_gives_nothing() {
    let log: Vec<Event<Person>> = Vec::new();
    assert!(Projector::project_all(&log).is_empty());
}

#[test]
fn whole_value_equality_makes_an_update_a_replacement_by_an_equal() {
    let mut list: Vec<u32> = vec![4, 5, 6];
    let update = Event { operation: CRUD::Update, date: 0, data: 5u32 };
    assert_eq!(Projector::project_one(&mut list, &update), Ok(()));
    assert_eq!(list, vec![4, 5, 6]);
    let delete = Event { operation: CRUD::Delete, date: 0, data: 4u32 };
    assert_eq!(Projector::project_one(&mut list, &delete), Ok(()));
    assert_eq!(list, vec![5, 6]);
    let create = Event { operation: CRUD::Create, date: 0, data: 4u32 };
    assert_eq!(Projector::project_one(&mut list, &create), Ok(()));
    assert_eq!(list, vec![5, 6, 4]);
}
