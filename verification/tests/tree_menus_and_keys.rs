use ad2edit::menus::role_counts;
use ad2edit::shortcuts::{key_capture, slot_label};
use ad2edit::tree::{tree_rows, Pick, Selection};
use std::collections::HashMap;

fn ent(id: u64, row: &str, parent: Option<u64>) -> (u64, String, Option<u64>) {
    (id, row.to_string(), parent)
}

/// The hierarchy worked out the straightforward way, with maps.
fn by_maps(ents: &[(u64, String, Option<u64>)], filter: &str) -> Vec<(u64, String, usize)> {
    let needle = filter.to_lowercase();
    let label_of: HashMap<u64, String> = ents
        .iter()
        .filter(|(_, s, _)| needle.is_empty() || s.to_lowercase().contains(&needle))
        .map(|(i, s, _)| (*i, s.clone()))
        .collect();
    let mut kids: HashMap<u64, Vec<u64>> = HashMap::new();
    let mut roots = Vec::new();
    for (i, _, p) in ents {
        match p {
            Some(p) if ents.iter().any(|(j, _, _)| j == p) => kids.entry(*p).or_default().push(*i),
            _ => roots.push(*i),
        }
    }
    fn walk(i: u64, d: usize, kids: &HashMap<u64, Vec<u64>>, label_of: &HashMap<u64, String>, out: &mut Vec<(u64, String, usize)>) {
        if let Some(l) = label_of.get(&i) {
            out.push((i, l.clone(), d));
        }
        if let Some(ch) = kids.get(&i) {
            let mut ch = ch.clone();
            ch.sort();
            for c in ch {
                walk(c, d + 1, kids, label_of, out);
            }
        }
    }
    roots.sort_by(|a, b| {
        let ka = kids.get(a).map(|v| v.len()).unwrap_or(0);
        let kb = kids.get(b).map(|v| v.len()).unwrap_or(0);
        kb.cmp(&ka).then(a.cmp(b))
    });
    let mut out = Vec::new();
    for r in roots {
        walk(r, 0, &kids, &label_of, &mut out);
    }
    out
}

fn sample() -> Vec<(u64, String, Option<u64>)> {
    vec![
        ent(7, "7 acf_gun", Some(3)),
        ent(3, "3 acf_turret", Some(1)),
        ent(1, "1 prop_physics hull", None),
        ent(9, "9 acf_engine", Some(1)),
        ent(4, "4 acf_ammo", Some(42)),
        ent(2, "2 prop_physics plate", None),
        ent(5, "5 acf_fueltank", Some(2)),
        ent(6, "6 gmod_wire_expression2", Some(1)),
        ent(8, "8 loop a", Some(10)),
        ent(10, "10 loop b", Some(8)),
    ]
}

#[test]
fn the_hierarchy_puts_the_hull_first_and_children_under_their_parents() {
    let rows = tree_rows(&sample(), "", true);
    let shown: Vec<(u64, usize)> = rows.iter().map(|(i, _, d)| (*i, *d)).collect();
    assert_eq!(shown, vec![(1, 0), (3, 1), (7, 2), (6, 1), (9, 1), (2, 0), (5, 1), (4, 0)]);
    assert_eq!(rows, by_maps(&sample(), ""));
}

#[test]
fn a_filtered_hierarchy_keeps_what_hangs_under_a_hidden_row() {
    let rows = tree_rows(&sample(), "ACF", true);
    assert_eq!(rows, by_maps(&sample(), "ACF"));
    let shown: Vec<(u64, usize)> = rows.iter().map(|(i, _, d)| (*i, *d)).collect();
    assert_eq!(shown, vec![(3, 1), (7, 2), (9, 1), (5, 1), (4, 0)]);
}

#[test]
fn the_flat_list_is_every_passing_entity_in_order() {
    let rows = tree_rows(&sample(), "prop", false);
    assert_eq!(rows, vec![(1, "1 prop_physics hull".to_string(), 0), (2, "2 prop_physics plate".to_string(), 0)]);
    assert_eq!(tree_rows(&sample(), "", false).len(), sample().len());
    assert!(tree_rows(&Vec::new(), "", true).is_empty());
}

#[test]
fn a_long_chain_of_parents_is_walked_to_its_end() {
    let ents: Vec<_> = (0..30u64).map(|i| ent(i, &format!("e{i}"), if i == 0 { None } else { Some(i - 1) })).collect();
    let rows = tree_rows(&ents, "", true);
    assert_eq!(rows.len(), 30);
    assert_eq!(rows[29], (29, "e29".to_string(), 29));
    assert_eq!(rows, by_maps(&ents, ""));
}

#[test]
fn clicks_pick_unpick_and_tick() {
    let mut s = Selection { pick: None, marked: Vec::new() };
    assert!(s.click_entity(4, false, false));
    assert_eq!(s.pick, Some(Pick::Entity(4)));
    assert!(s.shows_selected(4));
    assert!(s.click_entity(4, false, false));
    assert_eq!(s.pick, None);
    assert!(!s.click_entity(5, false, true));
    assert!(!s.click_entity(6, false, true));
    assert_eq!(s.marked, vec![5, 6]);
    assert!(s.shows_selected(6) && !s.shows_selected(4));
    assert!(!s.click_entity(5, false, true));
    assert_eq!(s.marked, vec![6]);
    assert!(!s.click_entity(9, true, false));
    assert_eq!(s.pick, None);
    s.menu_on_entity(9);
    assert_eq!(s.pick, Some(Pick::Entity(9)));
    s.click_constraint(2);
    assert_eq!(s.pick, Some(Pick::Constraint(2)));
    s.click_constraint(2);
    assert_eq!(s.pick, None);
}

#[test]
fn the_show_menu_counts_each_role_in_name_order() {
    let roles: Vec<String> = ["Gun", "Armour", "Gun", "Engine", "Armour", "Armour"].iter().map(|s| s.to_string()).collect();
    assert_eq!(
        role_counts(&roles),
        vec![("Armour".to_string(), 3), ("Engine".to_string(), 1), ("Gun".to_string(), 2)]
    );
    assert!(role_counts(&Vec::new()).is_empty());
    let odd: Vec<String> = ["b", "B", "ab", "a", "é", "z"].iter().map(|s| s.to_string()).collect();
    let mut expected: Vec<(&str, usize)> = odd.iter().map(|s| (s.as_str(), 1)).collect();
    expected.sort();
    let got = role_counts(&odd);
    assert_eq!(got.iter().map(|(n, c)| (n.as_str(), *c)).collect::<Vec<_>>(), expected);
}

#[test]
fn a_slot_waits_for_a_key_and_escape_binds_nothing() {
    let s = key_capture(None, None, Some(3));
    assert_eq!((s.capturing, s.bind.is_none()), (Some(3), true));
    let s = key_capture(Some(3), Some("K"), None);
    assert_eq!(s.capturing, None);
    assert_eq!(s.bind, Some((3, "K".to_string())));
    let s = key_capture(Some(3), Some("Escape"), None);
    assert_eq!((s.capturing, s.bind), (None, None));
    let s = key_capture(Some(3), None, None);
    assert_eq!((s.capturing, s.bind), (Some(3), None));
    let s = key_capture(None, Some("K"), None);
    assert_eq!((s.capturing, s.bind), (None, None));
    assert_eq!(slot_label(Some(1), 1, true, "Z"), "press a key");
    assert_eq!(slot_label(None, 1, true, "Z"), "Ctrl+Z");
    assert_eq!(slot_label(Some(2), 1, false, "F"), "F");
}
