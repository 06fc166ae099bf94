use ad2edit::add_window::toggle_favourite;
use ad2edit::catalogue::{catalogue_matches, families_in, lists_families, Item};
use ad2edit::gallery::{recent, recent_label};
use ad2edit::naming::{autosave_path, file_stem, first_free};
use std::path::Path;

fn strings(xs: &[&str]) -> Vec<String> {
    xs.iter().map(|s| s.to_string()).collect()
}

fn item(name: &str, category: &str) -> Item {
    Item {
        entity: "e".to_string(),
        value: name.to_string(),
        name: name.to_string(),
        category: category.to_string(),
        note: String::new(),
    }
}

#[test]
fn recent_dupes_are_at_most_count_and_only_files_still_there() {
    let opened = vec![5, 0, 9, 5, 1, 7];
    let exists = vec![true, true, false, true, true, true];
    assert_eq!(recent(&opened, &exists, 10), vec![5, 0, 3, 4]);
    assert_eq!(recent(&opened, &exists, 2), vec![5, 0]);
    assert_eq!(recent(&opened, &exists, 0), Vec::<usize>::new());
    assert_eq!(recent(&opened, &vec![false; 6], 3), Vec::<usize>::new());
}

#[test]
fn a_recent_dupe_is_labelled_by_its_title_or_its_file_stem() {
    assert_eq!(recent_label(&String::new(), "C:/dupes/tiger.txt"), "tiger");
    assert_eq!(recent_label(&"My Tiger".to_string(), "C:/dupes/tiger.txt"), "My Tiger");
    assert_eq!(recent_label(&String::new(), "dupes/"), "dupes");
    assert_eq!(recent_label(&String::new(), "dupes/.."), "");
}

#[test]
fn a_star_adds_a_part_once_and_takes_it_out_again() {
    let mut favs = strings(&["sprops:plate", "catalogue:e:v"]);
    toggle_favourite(&mut favs, "sprops:cube");
    assert_eq!(favs, strings(&["sprops:plate", "catalogue:e:v", "sprops:cube"]));
    toggle_favourite(&mut favs, "sprops:cube");
    assert_eq!(favs, strings(&["sprops:plate", "catalogue:e:v"]));
    let mut doubled = strings(&["a", "b", "a"]);
    toggle_favourite(&mut doubled, "a");
    assert_eq!(doubled, strings(&["b"]));
}

#[test]
fn a_new_file_gets_the_first_name_not_taken() {
    assert_eq!(first_free("untitled", &Vec::new()), "untitled.txt");
    assert_eq!(first_free("untitled", &strings(&["untitled.txt", "untitled-2.txt", "other.txt"])), "untitled-3.txt");
    assert_eq!(first_free("untitled", &strings(&["untitled-2.txt"])), "untitled.txt");
}

const PATHS: [&str; 28] = [
    "C:/dupes/tank.txt",
    "tank.txt",
    "a/b/.hidden",
    "a/.x.txt",
    "a/b.c.d",
    "noext",
    "dir/name.",
    "/tank.txt",
    "dupes/",
    "dupes//",
    ".",
    "./",
    "..",
    "a/..",
    "a/../",
    "/",
    "//",
    "",
    "a//b",
    "./a",
    "a/./b/.",
    "a/./",
    "/.",
    "/a",
    "/data/advdupe2/my.tank.txt",
    "a/b/./",
    "x/.../y",
    "...",
];

#[test]
fn file_stems_are_what_std_paths_give() {
    for p in PATHS {
        let std_stem = Path::new(p).file_stem().map(|s| s.to_string_lossy().into_owned());
        assert_eq!(file_stem(p), std_stem, "{p:?}");
    }
}

#[test]
fn an_autosave_sits_where_std_puts_it() {
    for p in PATHS {
        let path = Path::new(p);
        let stem = path.file_stem().map(|s| s.to_string_lossy().into_owned()).unwrap_or_else(|| "dupe".into());
        let expected = path.with_file_name(format!("{stem}.autosave.txt"));
        assert_eq!(autosave_path(p), expected.to_string_lossy(), "{p:?}");
    }
    assert_eq!(autosave_path("dupes/"), "dupes.autosave.txt");
    assert_eq!(autosave_path("C:/dupes/tank.txt"), "C:/dupes/tank.autosave.txt");
}

#[test]
fn one_more_word_only_narrows_a_search_and_a_blank_one_lists_everything() {
    let items = vec![
        item("4.2L I6", "Engines / Piston I6"),
        item("5.7L V8", "Engines / Piston V8"),
        item("CVT", "Gearboxes / CVT"),
        item("Fuel tank", "Fuel"),
    ];
    let wide = catalogue_matches(&items, "engines", usize::MAX);
    let narrow = catalogue_matches(&items, "engines v8", usize::MAX);
    assert!(narrow.iter().all(|n| wide.iter().any(|w| std::ptr::eq(*n, *w))));
    assert_eq!(narrow.len(), 1);
    let blank = catalogue_matches(&items, " ", 3);
    assert_eq!(blank.iter().map(|i| i.name.as_str()).collect::<Vec<_>>(), vec!["4.2L I6", "5.7L V8", "CVT"]);
    let two = catalogue_matches(&items, "", 2);
    let all = catalogue_matches(&items, "", 10);
    assert_eq!(two[..], all[..2]);
}

#[test]
fn a_group_with_one_family_lists_its_parts_directly() {
    let items = vec![item("a", "Engines / Piston I6"), item("b", "Engines / Piston V8"), item("c", "Fuel")];
    assert!(lists_families(&families_in(&items, "Engines")));
    assert!(!lists_families(&families_in(&items, "Fuel")));
}
