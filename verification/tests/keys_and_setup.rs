use ad2edit::gallery::{kept_note, kept_title, shown_title};
use ad2edit::setup::{Page, Setup, SETUP_STEPS};
use ad2edit::shortcuts::{key_actions, Command, KeyActions, Pressed};
use ad2edit::text::trim;

fn ctrl() -> Pressed {
    Pressed { command: true, ..Pressed::default() }
}

#[test]
fn ctrl_z_undoes_and_ctrl_shift_z_or_ctrl_y_redo() {
    let a = key_actions(Pressed { undo: true, ..ctrl() }, "Delete", false, false, false);
    assert_eq!(a.command, Command::Undo);
    let a = key_actions(Pressed { undo: true, shift: true, ..ctrl() }, "Delete", false, false, false);
    assert_eq!(a.command, Command::Redo);
    let a = key_actions(Pressed { redo: true, ..ctrl() }, "Delete", false, false, false);
    assert_eq!(a.command, Command::Redo);
}

#[test]
fn ctrl_n_makes_a_new_dupe_and_with_shift_one_with_a_baseplate() {
    let a = key_actions(Pressed { new_dupe: true, undo: true, ..ctrl() }, "Delete", false, false, false);
    assert_eq!(a.command, Command::NewDupe { baseplate: false });
    let a = key_actions(Pressed { new_dupe: true, shift: true, ..ctrl() }, "Delete", false, false, false);
    assert_eq!(a.command, Command::NewDupe { baseplate: true });
}

#[test]
fn nothing_fires_while_a_text_field_has_the_keyboard() {
    let p = Pressed { paste: true, escape: true, add: true, ..ctrl() };
    let a = key_actions(p, "Delete", true, true, false);
    assert_eq!(a, KeyActions { cancel_link: true, open_add: false, scale_handle: false, command: Command::Nothing });
    let a = key_actions(Pressed { paste: true, ..ctrl() }, "Delete", false, false, false);
    assert_eq!(a.command, Command::Paste);
}

#[test]
fn ctrl_is_the_slow_key_while_the_camera_flies() {
    let a = key_actions(Pressed { copy: true, move_handle: true, ..ctrl() }, "Delete", false, false, true);
    assert_eq!(a.command, Command::MoveHandle);
    let a = key_actions(Pressed { copy: true, move_handle: true, ..ctrl() }, "Delete", false, false, false);
    assert_eq!(a.command, Command::Copy);
}

#[test]
fn backspace_deletes_only_while_delete_is_bound_to_delete() {
    let p = Pressed { backspace: true, ..Pressed::default() };
    assert_eq!(key_actions(p, "Delete", false, false, false).command, Command::Delete);
    assert_eq!(key_actions(p, "X", false, false, false).command, Command::Nothing);
    let p = Pressed { delete: true, ..Pressed::default() };
    assert_eq!(key_actions(p, "X", false, false, false).command, Command::Delete);
}

#[test]
fn plain_keys_pick_the_gizmo_and_open_the_add_window() {
    let p = Pressed { add: true, scale_handle: true, rotate_handle: true, ..Pressed::default() };
    let a = key_actions(p, "Delete", false, false, false);
    assert!(a.open_add && a.scale_handle);
    assert_eq!(a.command, Command::RotateHandle);
    let a = key_actions(Pressed { add: true, ..ctrl() }, "Delete", false, false, false);
    assert!(!a.open_add);
    let a = key_actions(Pressed { save: true, shift: true, ..ctrl() }, "Delete", false, false, false);
    assert_eq!(a.command, Command::SaveAs);
    let a = key_actions(Pressed { deselect: true, frame: true, ..Pressed::default() }, "Delete", false, false, false);
    assert_eq!(a.command, Command::Deselect);
    let a = key_actions(Pressed { escape: true, ..Pressed::default() }, "Delete", true, false, false);
    assert!(a.cancel_link);
}

#[test]
fn the_wizard_proposes_the_configured_folder_first() {
    let s = Setup::new(&"C:/gmod".to_string(), Some("D:/found".to_string()));
    assert_eq!((s.step, s.garrysmod.as_str(), s.found_automatically), (0, "C:/gmod", false));
    let s = Setup::new(&String::new(), Some("D:/found".to_string()));
    assert_eq!((s.garrysmod.as_str(), s.found_automatically), ("D:/found", true));
    let s = Setup::new(&String::new(), None);
    assert_eq!((s.garrysmod.as_str(), s.found_automatically), ("", false));
}

#[test]
fn the_wizard_goes_through_its_three_steps_and_then_starts() {
    let mut s = Setup::new(&String::new(), None);
    assert_eq!(SETUP_STEPS, 3);
    assert_eq!(s.page(), Page::Mode);
    assert!(!s.can_go_back());
    s.back();
    assert_eq!(s.step, 0);
    assert!(!s.forward());
    assert_eq!(s.page(), Page::Game);
    assert!(!s.forward());
    assert_eq!(s.page(), Page::Done);
    assert!(s.is_last());
    assert!(s.forward());
    assert_eq!(s.step, 2);
    s.back();
    assert_eq!(s.page(), Page::Game);
}

#[test]
fn trimming_takes_white_space_off_both_ends() {
    assert_eq!(trim("  My tank \t\n"), "My tank");
    assert_eq!(trim("\u{3000}x y\u{a0}"), "x y");
    assert_eq!(trim("   "), "");
    assert_eq!(trim(""), "");
}

#[test]
fn a_renamed_dupe_is_shown_by_what_was_typed() {
    assert_eq!(kept_title("  Tiger  ", &"tank".to_string()), "Tiger");
    assert_eq!(kept_title(" tank ", &"tank".to_string()), "");
    let kept = kept_title("   ", &"tank".to_string());
    assert_eq!(shown_title(&kept, &"tank".to_string()), "tank");
    let kept = kept_title(" Tiger ", &"tank".to_string());
    assert_eq!(shown_title(&kept, &"tank".to_string()), "Tiger");
    assert_eq!(kept_note("  rear heavy "), "rear heavy");
}
