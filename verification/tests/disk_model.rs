//! Scenario tests that execute the returned plans against an in-memory
//! filesystem, mirroring how the unverified shell drives the library.

use std::collections::HashMap;

use save_manager::disk::{DiskOp, Loc};
use save_manager::types::App;
use save_manager::functions::{create, switch, save_stamped, load_stamped, overwrite_stamped,
    remove, delete, update_name};

#[derive(PartialEq, Eq, Hash, Clone, Debug)]
enum Spot {
    Source(String),
    Slot(String, usize, usize),
    Auto(String, usize),
    Holding(String, usize),
}

fn spot(l: &Loc) -> Spot {
    match l {
        Loc::Source { path } => Spot::Source(path.clone()),
        Loc::Slot { category, ordinal, index } => {
            Spot::Slot(category.clone(), *ordinal, *index)
        },
        Loc::Auto { category, ordinal } => Spot::Auto(category.clone(), *ordinal),
        Loc::Holding { category, ordinal } => Spot::Holding(category.clone(), *ordinal),
    }
}

/// Executes a plan the way the shell would, failing the test if any step
/// would fail on a real filesystem.
fn run(fs: &mut HashMap<Spot, String>, ops: &[DiskOp]) {
    for op in ops {
        match op {
            DiskOp::CopyTree { from, to } => {
                let v = fs.get(&spot(from)).expect("copy source missing").clone();
                let old = fs.insert(spot(to), v);
                assert!(old.is_none(), "copy target already existed");
            },
            DiskOp::Rename { from, to } => {
                let v = fs.remove(&spot(from)).expect("rename source missing");
                let old = fs.insert(spot(to), v);
                assert!(old.is_none(), "rename target already existed");
            },
            DiskOp::RemoveTree { at } => {
                fs.remove(&spot(at)).expect("remove target missing");
            },
        }
    }
}

fn numbered_slots(fs: &HashMap<Spot, String>, cat: &str) -> usize {
    fs.keys()
        .filter(|k| match k {
            Spot::Slot(c, _, _) => c == cat,
            _ => false,
        })
        .count()
}

fn source(fs: &HashMap<Spot, String>, path: &str) -> String {
    fs.get(&Spot::Source(path.to_string())).expect("source missing").clone()
}

#[test]
fn scenario_save_load_then_auto_round_trips() {
    let mut fs: HashMap<Spot, String> = HashMap::new();
    fs.insert(Spot::Source("/src".to_string()), "one".to_string());
    let mut app = App { current: None, categories: Vec::new() };
    create(&mut app, &"proj".to_string(), vec!["/src".to_string()]).unwrap();
    switch(&mut app, &"proj".to_string()).unwrap();

    let ops = save_stamped(&mut app, &None, &"01/01 00:00".to_string()).unwrap();
    run(&mut fs, &ops);
    assert_eq!(numbered_slots(&fs, "proj"), app.categories[0].saves.len());

    let ops = save_stamped(&mut app, &Some("v1".to_string()), &"01/02 00:00".to_string())
        .unwrap();
    run(&mut fs, &ops);
    assert_eq!(numbered_slots(&fs, "proj"), 2);

    // the user keeps editing the tree
    fs.insert(Spot::Source("/src".to_string()), "three".to_string());

    // load position 0: the tree becomes the first save's captured content
    let ops = load_stamped(&mut app, &Some("0".to_string()), &"01/03 00:00".to_string())
        .unwrap();
    run(&mut fs, &ops);
    assert_eq!(source(&fs, "/src"), "one");
    assert!(app.categories[0].auto.is_some());
    assert_eq!(fs.get(&Spot::Auto("proj".to_string(), 1)).unwrap(), "three");
    // the loaded version's slot stays intact
    assert_eq!(fs.get(&Spot::Slot("proj".to_string(), 1, 0)).unwrap(), "one");

    // load auto: back to the state from just before the load
    let ops = load_stamped(&mut app, &Some("auto".to_string()), &"01/04 00:00".to_string())
        .unwrap();
    run(&mut fs, &ops);
    assert_eq!(source(&fs, "/src"), "three");
    // the rotation swapped, so loading auto twice ping-pongs
    assert_eq!(fs.get(&Spot::Auto("proj".to_string(), 1)).unwrap(), "one");
    let ops = load_stamped(&mut app, &Some("auto".to_string()), &"01/05 00:00".to_string())
        .unwrap();
    run(&mut fs, &ops);
    assert_eq!(source(&fs, "/src"), "one");
    assert_eq!(numbered_slots(&fs, "proj"), app.categories[0].saves.len());
}

#[test]
fn scenario_load_evicts_previous_autosave() {
    let mut fs: HashMap<Spot, String> = HashMap::new();
    fs.insert(Spot::Source("/src".to_string()), "a".to_string());
    let mut app = App { current: None, categories: Vec::new() };
    create(&mut app, &"proj".to_string(), vec!["/src".to_string()]).unwrap();
    switch(&mut app, &"proj".to_string()).unwrap();
    run(&mut fs, &save_stamped(&mut app, &None, &"01/01 00:00".to_string()).unwrap());
    run(
        &mut fs,
        &load_stamped(&mut app, &Some("0".to_string()), &"01/02 00:00".to_string()).unwrap(),
    );
    fs.insert(Spot::Source("/src".to_string()), "b".to_string());
    // a second load must first evict the old autosave, then park "b"
    run(
        &mut fs,
        &load_stamped(&mut app, &Some("0".to_string()), &"01/03 00:00".to_string()).unwrap(),
    );
    assert_eq!(fs.get(&Spot::Auto("proj".to_string(), 1)).unwrap(), "b");
    assert_eq!(source(&fs, "/src"), "a");
}

#[test]
fn scenario_overwrite_refreshes_slot_from_tree() {
    let mut fs: HashMap<Spot, String> = HashMap::new();
    fs.insert(Spot::Source("/src".to_string()), "old".to_string());
    let mut app = App { current: None, categories: Vec::new() };
    create(&mut app, &"proj".to_string(), vec!["/src".to_string()]).unwrap();
    switch(&mut app, &"proj".to_string()).unwrap();
    run(
        &mut fs,
        &save_stamped(&mut app, &Some("v1".to_string()), &"01/01 00:00".to_string()).unwrap(),
    );
    fs.insert(Spot::Source("/src".to_string()), "new".to_string());
    run(
        &mut fs,
        &overwrite_stamped(&mut app, &"v1".to_string(), &"01/02 00:00".to_string()).unwrap(),
    );
    // the slot now holds the current tree; its old content became the autosave
    assert_eq!(fs.get(&Spot::Slot("proj".to_string(), 1, 0)).unwrap(), "new");
    assert_eq!(fs.get(&Spot::Auto("proj".to_string(), 1)).unwrap(), "old");
    assert_eq!(app.categories[0].saves[0].real_index, 0);
    assert_eq!(app.categories[0].saves[0].date, "01/02 00:00");
    assert_eq!(numbered_slots(&fs, "proj"), 1);
}

#[test]
fn scenario_remove_deletes_only_that_slot_set() {
    let mut fs: HashMap<Spot, String> = HashMap::new();
    fs.insert(Spot::Source("/a".to_string()), "a".to_string());
    fs.insert(Spot::Source("/b".to_string()), "b".to_string());
    let mut app = App { current: None, categories: Vec::new() };
    create(&mut app, &"proj".to_string(), vec!["/a".to_string(), "/b".to_string()]).unwrap();
    switch(&mut app, &"proj".to_string()).unwrap();
    run(&mut fs, &save_stamped(&mut app, &None, &"01/01 00:00".to_string()).unwrap());
    run(&mut fs, &save_stamped(&mut app, &None, &"01/02 00:00".to_string()).unwrap());
    assert_eq!(numbered_slots(&fs, "proj"), 4);
    run(&mut fs, &remove(&mut app, &"0".to_string()).unwrap());
    assert_eq!(numbered_slots(&fs, "proj"), 2);
    assert_eq!(app.categories[0].saves.len(), 1);
    assert!(fs.contains_key(&Spot::Slot("proj".to_string(), 1, 1)));
    assert!(fs.contains_key(&Spot::Slot("proj".to_string(), 2, 1)));
}

#[test]
fn scenario_delete_category_clears_all_its_slots() {
    let mut fs: HashMap<Spot, String> = HashMap::new();
    fs.insert(Spot::Source("/src".to_string()), "x".to_string());
    let mut app = App { current: None, categories: Vec::new() };
    create(&mut app, &"proj".to_string(), vec!["/src".to_string()]).unwrap();
    switch(&mut app, &"proj".to_string()).unwrap();
    run(&mut fs, &save_stamped(&mut app, &None, &"01/01 00:00".to_string()).unwrap());
    run(
        &mut fs,
        &load_stamped(&mut app, &Some("0".to_string()), &"01/02 00:00".to_string()).unwrap(),
    );
    run(&mut fs, &delete(&mut app, &"proj".to_string()).unwrap());
    assert_eq!(numbered_slots(&fs, "proj"), 0);
    assert!(!fs.contains_key(&Spot::Auto("proj".to_string(), 1)));
    assert!(fs.contains_key(&Spot::Source("/src".to_string())));
    assert!(app.current.is_none());
    assert_eq!(app.categories.len(), 0);
}

#[test]
fn scenario_update_name_moves_every_slot() {
    let mut fs: HashMap<Spot, String> = HashMap::new();
    fs.insert(Spot::Source("/src".to_string()), "x".to_string());
    let mut app = App { current: None, categories: Vec::new() };
    create(&mut app, &"proj".to_string(), vec!["/src".to_string()]).unwrap();
    switch(&mut app, &"proj".to_string()).unwrap();
    run(&mut fs, &save_stamped(&mut app, &None, &"01/01 00:00".to_string()).unwrap());
    run(
        &mut fs,
        &load_stamped(&mut app, &Some("0".to_string()), &"01/02 00:00".to_string()).unwrap(),
    );
    run(&mut fs, &update_name(&mut app, &"game".to_string()).unwrap());
    assert_eq!(numbered_slots(&fs, "proj"), 0);
    assert_eq!(numbered_slots(&fs, "game"), 1);
    assert_eq!(fs.get(&Spot::Slot("game".to_string(), 1, 0)).unwrap(), "x");
    assert!(fs.contains_key(&Spot::Auto("game".to_string(), 1)));
    assert!(!fs.contains_key(&Spot::Auto("proj".to_string(), 1)));
    assert_eq!(app.current.as_deref(), Some("game"));
}
