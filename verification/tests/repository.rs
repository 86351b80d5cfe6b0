//! The saved-level repository.
use snowpush::level::Level;
use snowpush::repository::LevelRepository;

#[test]
fn new_repository_is_empty() {
    let repo = LevelRepository::new();
    assert!(!repo.contains_level(String::from("anything")));
    assert!(repo.get_level(String::from("anything")).is_none());
    assert!(repo.level_names().is_empty());
}

#[test]
fn save_then_get_round_trips_the_level() {
    let mut repo = LevelRepository::new();
    let level = Level::from_string("stored\n###\n#p#\n###").unwrap();
    repo.save_level(String::from("stored"), String::from("santa"), level.clone());
    assert!(repo.contains_level(String::from("stored")));
    let back = repo.get_level(String::from("stored")).unwrap();
    assert_eq!(back.title, level.title);
    assert_eq!(back.w, level.w);
    assert_eq!(back.h, level.h);
    assert_eq!(back.tiles, level.tiles);
    assert_eq!(back.entities, level.entities);
}

#[test]
fn saving_again_replaces_the_entry() {
    let mut repo = LevelRepository::new();
    let first = Level::from_string("one\n###\n#p#\n###").unwrap();
    let second = Level::from_string("two\n####\n#pb#\n####").unwrap();
    repo.save_level(String::from("slot"), String::from("santa"), first);
    repo.save_level(String::from("slot"), String::from("helper"), second);
    assert_eq!(repo.level_names(), vec![String::from("slot")]);
    let back = repo.get_level(String::from("slot")).unwrap();
    assert_eq!(back.title, "two");
    let md = repo.get_metadata(&String::from("slot")).unwrap();
    assert_eq!(md.creator(), "helper");
}

#[test]
fn other_entries_survive_a_save() {
    let mut repo = LevelRepository::new();
    let a = Level::from_string("a\n##\n#p\n##").unwrap();
    let b = Level::from_string("b\n##\n#b\n##").unwrap();
    repo.insert_level(String::from("a"), String::from("santa"), String::from("today"), a);
    repo.insert_level(String::from("b"), String::from("santa"), String::from("today"), b);
    assert_eq!(repo.level_names(), vec![String::from("a"), String::from("b")]);
    assert_eq!(repo.get_level(String::from("a")).unwrap().title, "a");
    assert_eq!(repo.get_level(String::from("b")).unwrap().title, "b");
    let md = repo.get_metadata(&String::from("b")).unwrap();
    assert_eq!(md.date(), "today");
    assert_eq!(md.level().title, "b");
}

#[test]
fn missing_level_reports_none() {
    let mut repo = LevelRepository::new();
    let a = Level::from_string("a\n##\n#p\n##").unwrap();
    repo.save_level(String::from("a"), String::from("santa"), a);
    assert!(!repo.contains_level(String::from("missing")));
    assert!(repo.get_level(String::from("missing")).is_none());
    assert!(repo.get_metadata(&String::from("missing")).is_none());
}
