use ad2edit::cli::{built_path, configured_folder, dupe_info, flag_value, has_flag, parse_pair, position, verb_is, watch_echoes};
use ad2edit::menus::{new_dupe_message, Mark, NewDupe, Step, TutorialPanel};
use ad2edit::naming::{autosave_name, autosave_tick, is_autosave, is_chip_class, numbered_name, AutosaveTick};

fn step(title: &str, done: bool) -> Step {
    Step { title: title.to_string(), how: format!("how to {title}"), done }
}

#[test]
fn the_next_step_is_the_first_not_done() {
    let mut t = TutorialPanel::default();
    assert!(t.is_stale(0));
    t.rebuild(vec![step("plate", true), step("engine", false), step("gun", true), step("ammo", false)], 7);
    assert!(!t.is_stale(7));
    assert!(t.is_stale(8));
    assert_eq!(t.next_step(), Some(1));
    assert_eq!(t.marks(), vec![Mark::Done, Mark::Next, Mark::Done, Mark::Pending]);
    assert!(!t.finished());
}

#[test]
fn a_tutorial_with_every_step_done_is_finished() {
    let mut t = TutorialPanel::default();
    t.rebuild(vec![step("plate", true), step("engine", true)], 1);
    assert_eq!(t.next_step(), None);
    assert_eq!(t.marks(), vec![Mark::Done, Mark::Done]);
    assert!(t.finished());
    t.rebuild(Vec::new(), 2);
    assert!(t.finished());
}

#[test]
fn a_new_dupe_says_what_it_starts_with() {
    assert_eq!(new_dupe_message(NewDupe::Empty), "new empty dupe. Add parts, then Save.");
    assert_eq!(new_dupe_message(NewDupe::Baseplate), "new dupe with a baseplate. Add parts to it, then Save.");
}

#[test]
fn new_files_are_numbered_from_the_second() {
    assert_eq!(numbered_name("untitled", 1), "untitled.txt");
    assert_eq!(numbered_name("untitled", 2), "untitled-2.txt");
    assert_eq!(numbered_name("untitled", 10), "untitled-10.txt");
    let names: Vec<String> = (1..50).map(|n| numbered_name("t", n)).collect();
    for a in 0..names.len() {
        for b in a + 1..names.len() {
            assert_ne!(names[a], names[b]);
        }
    }
}

#[test]
fn an_autosave_sits_beside_its_dupe_and_is_known_as_one() {
    assert_eq!(autosave_name("tank"), "tank.autosave.txt");
    assert!(is_autosave("C:/dupes/tank.autosave.txt"));
    assert!(is_autosave("C:/dupes/TANK.AutoSave.TXT"));
    assert!(!is_autosave("C:/dupes/tank.txt"));
    assert!(is_autosave(&autosave_name("Tiger")));
}

#[test]
fn an_autosave_is_written_once_the_interval_has_passed_and_there_is_something_to_keep() {
    assert_eq!(autosave_tick(0, 1000, true, true), AutosaveTick { restart: false, write: false });
    assert_eq!(autosave_tick(60, 59, true, true), AutosaveTick { restart: false, write: false });
    assert_eq!(autosave_tick(60, 60, true, true), AutosaveTick { restart: true, write: true });
    assert_eq!(autosave_tick(60, 61, true, false), AutosaveTick { restart: true, write: false });
    assert_eq!(autosave_tick(60, 61, false, true), AutosaveTick { restart: true, write: false });
}

#[test]
fn chips_are_expression2_and_starfall_whatever_the_case() {
    assert!(is_chip_class("gmod_wire_expression2"));
    assert!(is_chip_class("GMOD_Wire_Expression2"));
    assert!(is_chip_class("starfall_processor"));
    assert!(!is_chip_class("gmod_wire_expression2_x"));
    assert!(!is_chip_class("acf_gun"));
}

#[test]
fn a_pair_splits_at_its_first_equals() {
    assert_eq!(parse_pair("Model=a=b"), Some(("Model".to_string(), "a=b".to_string())));
    assert_eq!(parse_pair("Key="), Some(("Key".to_string(), String::new())));
    assert_eq!(parse_pair("=value"), None);
    assert_eq!(parse_pair("novalue"), None);
    let (k, v) = parse_pair("MinDeg=-30").unwrap();
    assert_eq!(format!("{k}={v}"), "MinDeg=-30");
}

#[test]
fn a_flag_gives_the_argument_after_it() {
    let args: Vec<String> = ["ad2read", "tank.txt", "--models", "C:/gmod", "--json", "--models", "D:/x"]
        .iter()
        .map(|s| s.to_string())
        .collect();
    assert_eq!(position(&args, "--models"), Some(2));
    assert_eq!(flag_value(&args, "--models"), Some("C:/gmod".to_string()));
    assert_eq!(flag_value(&args, "--into"), None);
    assert!(has_flag(&args, "--json"));
    assert!(!has_flag(&args, "--doctor"));
    assert!(verb_is(&args, "tank.txt"));
    assert!(!verb_is(&args, "--build"));
    let last: Vec<String> = ["ad2read", "--preset"].iter().map(|s| s.to_string()).collect();
    assert_eq!(flag_value(&last, "--preset"), None);
    assert!(!verb_is(&Vec::new(), "--build"));
}

#[test]
fn a_folder_setting_counts_only_when_it_is_more_than_white_space() {
    assert_eq!(configured_folder(&"C:/garrysmod".to_string()), Some("C:/garrysmod".to_string()));
    assert_eq!(configured_folder(&"   ".to_string()), None);
    assert_eq!(configured_folder(&String::new()), None);
}

#[test]
fn watch_passes_on_what_a_build_wrote_and_where() {
    assert!(watch_echoes("wrote out/tank.txt (12 entities)"));
    assert!(watch_echoes("fixed: weld"));
    assert!(watch_echoes("clean: x"));
    assert!(!watch_echoes("repaired: head"));
    assert_eq!(built_path("wrote out/tank.txt (12 entities, 3 names)"), "out/tank.txt");
    assert_eq!(built_path("wrote tank.txt"), "tank.txt");
    assert_eq!(built_path("wrote wrote a (b"), "a");
}

#[test]
fn a_dupe_info_block_has_its_six_fields_in_order() {
    let info = dupe_info("tank", "built", "1234");
    let keys: Vec<&str> = info.iter().map(|(k, _)| k.as_str()).collect();
    assert_eq!(keys, vec!["name", "date", "time", "timezone", "size", "check"]);
    assert_eq!(info[0].1, "tank");
    assert_eq!(info[4].1, "1234");
    assert_eq!(info[5].1, "\r\n\t\n");
}
