use save_manager::Parsed;
use save_manager::nums::{parse_dec, usize_to_string};
use save_manager::types::{slot_path, auto_slot_path, str_eq_string, save_has_name, Save, App,
    Category};
use save_manager::resolve::{resolve, resolve_position, token_is_auto, SaveRef};
use save_manager::functions::{create, switch, save_stamped};

#[test]
fn parse_reads_decimal_values() {
    assert_eq!(parse_dec("0"), Parsed::Value(0));
    assert_eq!(parse_dec("42"), Parsed::Value(42));
    assert_eq!(parse_dec("007"), Parsed::Value(7));
    assert_eq!(parse_dec(""), Parsed::NotNumeric);
    assert_eq!(parse_dec("auto"), Parsed::NotNumeric);
    assert_eq!(parse_dec("12x"), Parsed::NotNumeric);
    assert_eq!(parse_dec("-1"), Parsed::NotNumeric);
    assert_eq!(parse_dec("999999999999999999999999999999"), Parsed::Overflow);
}

#[test]
fn rendering_round_trips_through_parse() {
    for n in [0usize, 1, 9, 10, 99, 100, 123456, usize::MAX] {
        let s = usize_to_string(n);
        assert_eq!(parse_dec(s.as_str()), Parsed::Value(n));
    }
    assert_eq!(usize_to_string(0), "0");
    assert_eq!(usize_to_string(907), "907");
}

#[test]
fn slot_names_embed_category_ordinal_and_index() {
    let cat = "proj".to_string();
    assert_eq!(slot_path("/data", &cat, 1, 5), "/data/proj_1_5");
    assert_eq!(slot_path("/data", &cat, 12, 0), "/data/proj_12_0");
    assert_eq!(auto_slot_path("/data", &cat, 1), "/data/proj_1_auto");
    assert_eq!(auto_slot_path("/data", &cat, 3), "/data/proj_3_auto");
}

#[test]
fn save_and_category_path_listings_cover_every_ordinal() {
    let mut app = App { current: None, categories: Vec::new() };
    create(
        &mut app,
        &"proj".to_string(),
        vec!["/tmp/a".to_string(), "/tmp/b".to_string()],
    )
    .unwrap();
    switch(&mut app, &"proj".to_string()).unwrap();
    save_stamped(&mut app, &None, &"01/01 00:00".to_string()).unwrap();
    let cat: &Category = &app.categories[0];
    let sv: &Save = &cat.saves[0];
    assert_eq!(
        sv.get_paths(cat, "/data"),
        vec!["/data/proj_1_0".to_string(), "/data/proj_2_0".to_string()]
    );
    assert_eq!(
        cat.get_auto_paths("/data"),
        vec!["/data/proj_1_auto".to_string(), "/data/proj_2_auto".to_string()]
    );
}

#[test]
fn string_helpers_compare_by_content() {
    assert!(str_eq_string("abc", &"abc".to_string()));
    assert!(!str_eq_string("abc", &"abd".to_string()));
    assert!(token_is_auto("auto"));
    assert!(!token_is_auto("Auto"));
    let named = Save { name: Some("v1".to_string()), real_index: 0, date: String::new() };
    let anon = Save { name: None, real_index: 1, date: String::new() };
    assert!(save_has_name(&named, "v1"));
    assert!(!save_has_name(&named, "v2"));
    assert!(!save_has_name(&anon, "v1"));
}

fn category_with_names(names: Vec<Option<&str>>) -> Category {
    let saves: Vec<Save> = names
        .iter()
        .enumerate()
        .map(|(i, n)| Save {
            name: n.map(|s| s.to_string()),
            real_index: i,
            date: String::new(),
        })
        .collect();
    Category {
        name: "proj".to_string(),
        paths: vec!["/tmp/src".to_string()],
        saves,
        auto: None,
        max: names.len(),
    }
}

#[test]
fn resolver_prefers_positions_then_auto_then_names() {
    let cat = category_with_names(vec![Some("a"), Some("b")]);
    assert!(matches!(resolve(&cat, "0"), Ok(SaveRef::ByPosition(0))));
    assert!(matches!(resolve(&cat, "1"), Ok(SaveRef::ByPosition(1))));
    assert!(resolve(&cat, "2").is_err());
    assert!(matches!(resolve(&cat, "auto"), Ok(SaveRef::ByAuto)));
    match resolve(&cat, "b") {
        Ok(SaveRef::ByName(n)) => assert_eq!(n, "b"),
        _ => panic!("expected a name reference"),
    }
    assert!(resolve(&cat, "missing").is_err());
    // a huge numeral is a position that is always out of range, not a name
    assert!(resolve(&cat, "999999999999999999999999999999").is_err());
}

#[test]
fn position_resolution_matches_first_name() {
    let cat = category_with_names(vec![None, Some("b"), Some("c")]);
    assert_eq!(resolve_position(&cat, "2").unwrap(), 2);
    assert_eq!(resolve_position(&cat, "b").unwrap(), 1);
    assert_eq!(resolve_position(&cat, "c").unwrap(), 2);
    assert!(resolve_position(&cat, "3").is_err());
    assert!(resolve_position(&cat, "auto").is_err());
}
