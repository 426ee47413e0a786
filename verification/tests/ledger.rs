use save_manager::Error;
use save_manager::types::{App, Category, Save};
use save_manager::functions::{create, switch, save_stamped, load_stamped, overwrite_stamped,
    remove, delete, update_name};

fn empty_app() -> App {
    App { current: None, categories: Vec::new() }
}

fn app_with(name: &str, paths: Vec<&str>) -> App {
    let mut app = empty_app();
    let owned: Vec<String> = paths.iter().map(|p| p.to_string()).collect();
    create(&mut app, &name.to_string(), owned).unwrap();
    switch(&mut app, &name.to_string()).unwrap();
    app
}

#[test]
fn create_rejects_empty_paths() {
    let mut app = empty_app();
    let r = create(&mut app, &"proj".to_string(), Vec::new());
    assert_eq!(r, Err(Error::SourcePathMissing));
    assert_eq!(app.categories.len(), 0);
}

#[test]
fn create_rejects_duplicate_name() {
    let mut app = app_with("proj", vec!["/tmp/src"]);
    let r = create(&mut app, &"proj".to_string(), vec!["/tmp/other".to_string()]);
    assert_eq!(r, Err(Error::CategoryAlreadyExists));
    assert_eq!(app.categories.len(), 1);
}

#[test]
fn switch_rejects_unknown_category() {
    let mut app = app_with("proj", vec!["/tmp/src"]);
    let r = switch(&mut app, &"other".to_string());
    assert_eq!(r, Err(Error::CategoryNotFound));
    assert_eq!(app.current.as_deref(), Some("proj"));
}

#[test]
fn save_requires_active_category() {
    let mut app = empty_app();
    let r = save_stamped(&mut app, &None, &"01/01 00:00".to_string());
    assert_eq!(r.unwrap_err(), Error::NoActiveCategory);
}

#[test]
fn save_rejects_numeric_name() {
    let mut app = app_with("proj", vec!["/tmp/src"]);
    let r = save_stamped(&mut app, &Some("3".to_string()), &"01/01 00:00".to_string());
    assert_eq!(r.unwrap_err(), Error::InvalidSaveName);
    assert_eq!(app.categories[0].saves.len(), 0);
}

#[test]
fn save_rejects_reserved_auto_name() {
    let mut app = app_with("proj", vec!["/tmp/src"]);
    let r = save_stamped(&mut app, &Some("auto".to_string()), &"01/01 00:00".to_string());
    assert_eq!(r.unwrap_err(), Error::InvalidSaveName);
}

#[test]
fn save_rejects_used_name() {
    let mut app = app_with("proj", vec!["/tmp/src"]);
    save_stamped(&mut app, &Some("v1".to_string()), &"01/01 00:00".to_string()).unwrap();
    let r = save_stamped(&mut app, &Some("v1".to_string()), &"01/02 00:00".to_string());
    assert_eq!(r.unwrap_err(), Error::SaveAlreadyExists);
    assert_eq!(app.categories[0].saves.len(), 1);
}

#[test]
fn save_allocates_increasing_indices() {
    let mut app = app_with("proj", vec!["/tmp/src"]);
    save_stamped(&mut app, &None, &"01/01 00:00".to_string()).unwrap();
    save_stamped(&mut app, &None, &"01/02 00:00".to_string()).unwrap();
    save_stamped(&mut app, &None, &"01/03 00:00".to_string()).unwrap();
    let idx: Vec<usize> = app.categories[0].saves.iter().map(|s| s.real_index).collect();
    assert_eq!(idx, vec![0, 1, 2]);
    assert_eq!(app.categories[0].max, 3);
}

#[test]
fn indices_are_never_reused_after_removal() {
    let mut app = app_with("proj", vec!["/tmp/src"]);
    save_stamped(&mut app, &None, &"01/01 00:00".to_string()).unwrap();
    save_stamped(&mut app, &None, &"01/02 00:00".to_string()).unwrap();
    remove(&mut app, &"1".to_string()).unwrap();
    save_stamped(&mut app, &None, &"01/03 00:00".to_string()).unwrap();
    let idx: Vec<usize> = app.categories[0].saves.iter().map(|s| s.real_index).collect();
    assert_eq!(idx, vec![0, 2]);
}

#[test]
fn remove_shifts_positions() {
    let mut app = app_with("proj", vec!["/tmp/src"]);
    save_stamped(&mut app, &Some("a".to_string()), &"01/01 00:00".to_string()).unwrap();
    save_stamped(&mut app, &Some("b".to_string()), &"01/02 00:00".to_string()).unwrap();
    save_stamped(&mut app, &Some("c".to_string()), &"01/03 00:00".to_string()).unwrap();
    remove(&mut app, &"0".to_string()).unwrap();
    let names: Vec<String> =
        app.categories[0].saves.iter().map(|s| s.name.clone().unwrap()).collect();
    assert_eq!(names, vec!["b".to_string(), "c".to_string()]);
    // position 0 now refers to what was b
    assert_eq!(app.categories[0].get_save_index("b").unwrap(), 0);
}

#[test]
fn remove_unknown_position_fails() {
    let mut app = app_with("proj", vec!["/tmp/src"]);
    save_stamped(&mut app, &None, &"01/01 00:00".to_string()).unwrap();
    assert_eq!(remove(&mut app, &"7".to_string()).unwrap_err(), Error::SaveNotFound);
    assert_eq!(remove(&mut app, &"nope".to_string()).unwrap_err(), Error::SaveNotFound);
    assert_eq!(app.categories[0].saves.len(), 1);
}

#[test]
fn load_requires_saves() {
    let mut app = app_with("proj", vec!["/tmp/src"]);
    let r = load_stamped(&mut app, &None, &"01/01 00:00".to_string());
    assert_eq!(r.unwrap_err(), Error::NoSavesInCategory);
}

#[test]
fn load_auto_requires_marker() {
    let mut app = app_with("proj", vec!["/tmp/src"]);
    save_stamped(&mut app, &None, &"01/01 00:00".to_string()).unwrap();
    let r = load_stamped(&mut app, &Some("auto".to_string()), &"01/02 00:00".to_string());
    assert_eq!(r.unwrap_err(), Error::NoAutosaveAvailable);
}

#[test]
fn load_sets_autosave_marker() {
    let mut app = app_with("proj", vec!["/tmp/src"]);
    save_stamped(&mut app, &None, &"01/01 00:00".to_string()).unwrap();
    assert!(app.categories[0].auto.is_none());
    load_stamped(&mut app, &Some("0".to_string()), &"01/02 00:00".to_string()).unwrap();
    assert_eq!(app.categories[0].auto.as_deref(), Some("01/02 00:00"));
}

#[test]
fn load_by_name_resolves_display_name() {
    let mut app = app_with("proj", vec!["/tmp/src"]);
    save_stamped(&mut app, &Some("v1".to_string()), &"01/01 00:00".to_string()).unwrap();
    let r = load_stamped(&mut app, &Some("v1".to_string()), &"01/02 00:00".to_string());
    assert!(r.is_ok());
    let r2 = load_stamped(&mut app, &Some("v2".to_string()), &"01/03 00:00".to_string());
    assert_eq!(r2.unwrap_err(), Error::SaveNotFound);
}

#[test]
fn overwrite_keeps_index_and_name_updates_date() {
    let mut app = app_with("proj", vec!["/tmp/src"]);
    save_stamped(&mut app, &Some("v1".to_string()), &"01/01 00:00".to_string()).unwrap();
    overwrite_stamped(&mut app, &"v1".to_string(), &"02/02 12:30".to_string()).unwrap();
    let s: &Save = &app.categories[0].saves[0];
    assert_eq!(s.real_index, 0);
    assert_eq!(s.name.as_deref(), Some("v1"));
    assert_eq!(s.date, "02/02 12:30");
    // the old slot content was parked as the autosave
    assert_eq!(app.categories[0].auto.as_deref(), Some("02/02 12:30"));
}

#[test]
fn overwrite_unknown_reference_fails() {
    let mut app = app_with("proj", vec!["/tmp/src"]);
    save_stamped(&mut app, &None, &"01/01 00:00".to_string()).unwrap();
    assert_eq!(
        overwrite_stamped(&mut app, &"9".to_string(), &"01/02 00:00".to_string()).unwrap_err(),
        Error::SaveNotFound
    );
}

#[test]
fn delete_clears_active_pointer() {
    let mut app = app_with("proj", vec!["/tmp/src"]);
    save_stamped(&mut app, &None, &"01/01 00:00".to_string()).unwrap();
    delete(&mut app, &"proj".to_string()).unwrap();
    assert_eq!(app.categories.len(), 0);
    assert!(app.current.is_none());
}

#[test]
fn delete_keeps_pointer_to_other_category() {
    let mut app = app_with("proj", vec!["/tmp/src"]);
    create(&mut app, &"other".to_string(), vec!["/tmp/o".to_string()]).unwrap();
    delete(&mut app, &"other".to_string()).unwrap();
    assert_eq!(app.current.as_deref(), Some("proj"));
    assert_eq!(app.categories.len(), 1);
}

#[test]
fn delete_unknown_category_fails() {
    let mut app = app_with("proj", vec!["/tmp/src"]);
    assert_eq!(delete(&mut app, &"nope".to_string()).unwrap_err(), Error::CategoryNotFound);
}

#[test]
fn update_name_renames_and_follows_pointer() {
    let mut app = app_with("proj", vec!["/tmp/src"]);
    save_stamped(&mut app, &None, &"01/01 00:00".to_string()).unwrap();
    update_name(&mut app, &"game".to_string()).unwrap();
    assert_eq!(app.categories[0].name, "game");
    assert_eq!(app.current.as_deref(), Some("game"));
}

#[test]
fn update_name_rejects_collision() {
    let mut app = app_with("proj", vec!["/tmp/src"]);
    create(&mut app, &"other".to_string(), vec!["/tmp/o".to_string()]).unwrap();
    assert_eq!(
        update_name(&mut app, &"other".to_string()).unwrap_err(),
        Error::CategoryAlreadyExists
    );
    // renaming the active category to its own name collides too
    assert_eq!(
        update_name(&mut app, &"proj".to_string()).unwrap_err(),
        Error::CategoryAlreadyExists
    );
}

#[test]
fn accessors_find_categories_and_saves() {
    let mut app = app_with("proj", vec!["/tmp/src"]);
    save_stamped(&mut app, &Some("v1".to_string()), &"01/01 00:00".to_string()).unwrap();
    assert_eq!(app.get_category_index("proj").unwrap(), 0);
    assert!(app.get_category("proj").is_ok());
    assert_eq!(app.get_category("x").unwrap_err(), Error::CategoryNotFound);
    let cat: &Category = app.current_category().unwrap();
    assert_eq!(cat.name, "proj");
    assert_eq!(cat.get_save_index("v1").unwrap(), 0);
    assert!(cat.get_save("v1").is_ok());
    assert_eq!(cat.get_save("v2").unwrap_err(), Error::SaveNotFound);
    assert_eq!(app.current_category_mut().unwrap().name, "proj");
    let mut headless = App { current: None, categories: Vec::new() };
    assert_eq!(headless.current_category_mut().unwrap_err(), Error::NoActiveCategory);
    assert_eq!(headless.current_category().unwrap_err(), Error::NoActiveCategory);
}

#[test]
fn error_messages_are_short_lines() {
    assert_eq!(Error::NoActiveCategory.message(), "No current category");
    assert_eq!(Error::CategoryNotFound.message(), "Category does not exist");
    assert!(!Error::FilesystemOperationFailed.message().is_empty());
}

#[test]
fn clock_stamped_commands_work() {
    let mut app = app_with("proj", vec!["/tmp/src"]);
    save_manager::functions::save(&mut app, &None).unwrap();
    assert_eq!(app.categories[0].saves.len(), 1);
    assert!(!app.categories[0].saves[0].date.is_empty());
    save_manager::functions::load(&mut app, &Some("0".to_string())).unwrap();
    assert!(app.categories[0].auto.is_some());
    save_manager::functions::overwrite(&mut app, &"0".to_string()).unwrap();
    assert_eq!(app.categories[0].saves[0].real_index, 0);
}
