use ad2edit::add_window::{AddWindow, Choice, Sprop};
use ad2edit::catalogue::{catalogue_groups, catalogue_matches, families_in, family_label, group_of, items_in_family, Item};

fn item(entity: &str, value: &str, name: &str, category: &str, note: &str) -> Item {
    Item {
        entity: entity.to_string(),
        value: value.to_string(),
        name: name.to_string(),
        category: category.to_string(),
        note: note.to_string(),
    }
}

fn catalogue() -> Vec<Item> {
    vec![
        item("acf_engine", "I6_4.2", "4.2L I6 Petrol", "Engines / Piston I6", "a truck engine"),
        item("acf_engine", "V8_5.7", "5.7L V8", "Engines / Piston V8", ""),
        item("acf_gearbox", "CVT_T_S", "CVT, transaxial, small", "Gearboxes / CVT", ""),
        item("acf_fueltank", "Box", "Fuel tank", "Fuel", "Ranger sized"),
        item("acf_engine", "I6_4.2", "duplicate entry", "Engines / Piston I6", ""),
    ]
}

fn props() -> Vec<Sprop> {
    vec![
        Sprop { model: "cube/cube_24x48".to_string(), label: "Cube 24 x 48".to_string() },
        Sprop { model: "plate".to_string(), label: "Plate".to_string() },
    ]
}

#[test]
fn a_group_is_the_category_before_its_first_separator() {
    assert_eq!(group_of("Engines / Piston I6"), "Engines");
    assert_eq!(group_of("Engines / Piston / Big"), "Engines");
    assert_eq!(group_of("Fuel"), "Fuel");
    assert_eq!(group_of("A/B"), "A/B");
    assert_eq!(group_of(""), "");
    assert_eq!(group_of(" / x"), "");
}

#[test]
fn the_group_of_a_group_is_itself() {
    for c in ["Engines / Piston I6", "Fuel", "a / b / c", " / "] {
        let g = group_of(c);
        assert_eq!(group_of(&g), g);
    }
}

#[test]
fn groups_are_counted_in_order_of_first_appearance() {
    let groups = catalogue_groups(&catalogue());
    assert_eq!(
        groups,
        vec![("Engines".to_string(), 3), ("Gearboxes".to_string(), 1), ("Fuel".to_string(), 1)]
    );
    assert_eq!(groups.iter().map(|g| g.1).sum::<usize>(), catalogue().len());
    assert!(catalogue_groups(&Vec::new()).is_empty());
}

#[test]
fn a_search_needs_every_word_somewhere_in_the_part() {
    let items = catalogue();
    let found = catalogue_matches(&items, "ENGINE  i6", 40);
    assert_eq!(found.iter().map(|i| i.name.as_str()).collect::<Vec<_>>(), vec!["4.2L I6 Petrol", "duplicate entry"]);
    let found = catalogue_matches(&items, "ranger", 40);
    assert_eq!(found.len(), 1);
    assert_eq!(found[0].entity, "acf_fueltank");
    assert!(catalogue_matches(&items, "gun", 40).is_empty());
}

#[test]
fn a_search_stops_at_its_limit_and_an_empty_one_matches_everything() {
    let items = catalogue();
    assert_eq!(catalogue_matches(&items, "engine", 1).len(), 1);
    assert_eq!(catalogue_matches(&items, "engine", 0).len(), 0);
    assert_eq!(catalogue_matches(&items, "   ", 40).len(), items.len());
    let two = catalogue_matches(&items, "engine", 2);
    let all = catalogue_matches(&items, "engine", 40);
    assert_eq!(two[..], all[..2]);
}

#[test]
fn a_favourite_key_finds_its_part_again() {
    let items = catalogue();
    let props = props();
    let key = Choice::Catalogue(&items[2]).key();
    assert_eq!(key, "catalogue:acf_gearbox:CVT_T_S");
    match Choice::from_key(&key, &items, &props) {
        Some(Choice::Catalogue(found)) => assert_eq!(*found, items[2]),
        other => panic!("{other:?}"),
    }
    // Two parts with one entity and value: the first is the one found.
    let key = Choice::Catalogue(&items[4]).key();
    match Choice::from_key(&key, &items, &props) {
        Some(Choice::Catalogue(found)) => assert_eq!(found.name, "4.2L I6 Petrol"),
        other => panic!("{other:?}"),
    }
}

#[test]
fn a_favourite_key_finds_its_model_again() {
    let items = catalogue();
    let props = props();
    let key = Choice::Prop(&props[0]).key();
    assert_eq!(key, "sprops:cube/cube_24x48");
    match Choice::from_key(&key, &items, &props) {
        Some(Choice::Prop(found)) => assert_eq!(*found, props[0]),
        other => panic!("{other:?}"),
    }
}

#[test]
fn a_key_for_nothing_kept_finds_nothing() {
    let items = catalogue();
    let props = props();
    assert!(Choice::from_key("sprops:gone", &items, &props).is_none());
    assert!(Choice::from_key("catalogue:acf_engine", &items, &props).is_none());
    assert!(Choice::from_key("catalogue:acf_engine:V12", &items, &props).is_none());
    assert!(Choice::from_key("something else", &items, &props).is_none());
    assert!(Choice::from_key("", &items, &props).is_none());
}

#[test]
fn a_value_may_hold_colons_after_the_first() {
    let items = vec![item("e", "a:b", "n", "c", "")];
    match Choice::from_key("catalogue:e:a:b", &items, &Vec::new()) {
        Some(Choice::Catalogue(found)) => assert_eq!(found.value, "a:b"),
        other => panic!("{other:?}"),
    }
}

#[test]
fn a_row_says_what_it_adds_and_what_kind_it_is() {
    let items = catalogue();
    let props = props();
    assert_eq!(Choice::Catalogue(&items[0]).name(), "4.2L I6 Petrol");
    assert_eq!(Choice::Catalogue(&items[0]).kind(), "Engines / Piston I6");
    assert_eq!(Choice::Prop(&props[0]).name(), "Cube 24 x 48");
    assert_eq!(Choice::Prop(&props[0]).kind(), "SProps / cube");
    assert_eq!(Choice::Prop(&props[1]).kind(), "SProps / ");
}

#[test]
fn opening_the_add_window_focuses_its_search_once() {
    let mut w = AddWindow::default();
    assert!(!w.showing && !w.take_focus());
    w.open();
    assert!(w.showing);
    assert!(w.take_focus());
    assert!(!w.take_focus());
}

#[test]
fn opening_with_a_search_keeps_what_was_picked() {
    let mut w = AddWindow::default();
    w.pick_list(3);
    w.header = 2;
    w.open_searching("ranger");
    assert!(w.showing && w.wants_focus);
    assert_eq!(w.query, "ranger");
    assert_eq!((w.list, w.header), (3, 2));
    w.close();
    assert!(!w.showing);
    assert_eq!(w.query, "ranger");
}

#[test]
fn a_picked_list_or_heading_stays_among_those_there_are() {
    let mut w = AddWindow::default();
    w.pick_list(9);
    assert_eq!((w.list, w.header), (9, 0));
    w.fit_list(4);
    assert_eq!(w.list, 3);
    w.fit_list(0);
    assert_eq!(w.list, 0);
    w.header = 5;
    w.fit_header(10);
    assert_eq!(w.header, 5);
    w.fit_header(2);
    assert_eq!(w.header, 1);
}

#[test]
fn a_groups_families_are_its_categories_once_each_in_order() {
    let items = catalogue();
    assert_eq!(families_in(&items, "Engines"), vec!["Engines / Piston I6".to_string(), "Engines / Piston V8".to_string()]);
    assert_eq!(families_in(&items, "Fuel"), vec!["Fuel".to_string()]);
    assert!(families_in(&items, "Guns").is_empty());
    let i6 = items_in_family(&items, "Engines / Piston I6");
    assert_eq!(i6.iter().map(|i| i.name.as_str()).collect::<Vec<_>>(), vec!["4.2L I6 Petrol", "duplicate entry"]);
    assert_eq!(family_label("Engines / Piston I6"), "Piston I6");
    assert_eq!(family_label("Engines / Piston / Big"), "Piston");
    assert_eq!(family_label("Fuel"), "Fuel");
}
