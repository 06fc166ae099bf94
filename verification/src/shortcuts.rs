//! The editor's keyboard: which of its commands a frame's key presses ask
//! for, with the keys bound in Settings > Keys.

use vstd::prelude::*;

verus! {

/// Which bound keys went down this frame, and the modifiers held.
#[derive(Debug, Clone, Copy, PartialEq, Eq, Structural, Default)]
pub struct Pressed {
    pub undo: bool,
    pub redo: bool,
    pub copy: bool,
    pub paste: bool,
    pub duplicate: bool,
    pub save: bool,
    pub open: bool,
    pub select_all: bool,
    pub new_dupe: bool,
    pub delete: bool,
    pub backspace: bool,
    pub deselect: bool,
    pub move_handle: bool,
    pub rotate_handle: bool,
    pub frame: bool,
    pub add: bool,
    pub scale_handle: bool,
    pub escape: bool,
    /// Ctrl, or Cmd on a Mac.
    pub command: bool,
    pub shift: bool,
}

/// The one command a frame's keys run, at most.
#[derive(Debug, Clone, Copy, PartialEq, Eq, Structural)]
pub enum Command {
    Nothing,
    NewDupe { baseplate: bool },
    Undo,
    Redo,
    Copy,
    Paste,
    Duplicate,
    SaveAs,
    Save,
    Open,
    SelectAll,
    Delete,
    Deselect,
    MoveHandle,
    RotateHandle,
    Frame,
}

/// What the keys of a frame do.
#[derive(Debug, Clone, Copy, PartialEq, Eq, Structural)]
pub struct KeyActions {
    /// Escape while picking a link target gives the link up.
    pub cancel_link: bool,
    /// Open the Add window.
    pub open_add: bool,
    /// Switch the gizmo to scaling.
    pub scale_handle: bool,
    pub command: Command,
}

/// The command the keys ask for, first match wins. `cmd` is Ctrl held while
/// the camera is at rest: mid-flight Ctrl is the slow key, not a command.
pub open spec fn command_of(p: Pressed, cmd: bool, delete: bool) -> Command {
    if cmd && p.new_dupe {
        Command::NewDupe { baseplate: p.shift }
    } else if cmd && p.undo && p.shift {
        Command::Redo
    } else if cmd && p.undo {
        Command::Undo
    } else if cmd && p.redo {
        Command::Redo
    } else if cmd && p.copy {
        Command::Copy
    } else if cmd && p.paste {
        Command::Paste
    } else if cmd && p.duplicate {
        Command::Duplicate
    } else if cmd && p.save && p.shift {
        Command::SaveAs
    } else if cmd && p.save {
        Command::Save
    } else if cmd && p.open {
        Command::Open
    } else if cmd && p.select_all {
        Command::SelectAll
    } else if delete {
        Command::Delete
    } else if p.deselect {
        Command::Deselect
    } else if !cmd && p.move_handle {
        Command::MoveHandle
    } else if !cmd && p.rotate_handle {
        Command::RotateHandle
    } else if !cmd && p.frame {
        Command::Frame
    } else {
        Command::Nothing
    }
}

/// What the keys of a frame do: `linking` while a link target is being
/// picked, `typing` when a text field has the keyboard, `flying` while the
/// camera moves, and `delete_binding` the name of the key bound to delete
/// (Backspace deletes too when that is "Delete").
pub open spec fn actions_of(p: Pressed, delete_binding: Seq<char>, linking: bool, typing: bool, flying: bool) -> KeyActions {
    let cancel_link = linking && p.escape;
    if typing {
        KeyActions { cancel_link, open_add: false, scale_handle: false, command: Command::Nothing }
    } else {
        let cmd = p.command && !flying;
        let delete = p.delete || (delete_binding == "Delete"@ && p.backspace);
        KeyActions {
            cancel_link,
            open_add: !cmd && p.add,
            scale_handle: !cmd && p.scale_handle,
            command: command_of(p, cmd, delete),
        }
    }
}

/// What the keys of a frame do.
pub fn key_actions(p: Pressed, delete_binding: &str, linking: bool, typing: bool, flying: bool) -> (r: KeyActions)
    ensures
        r == actions_of(p, delete_binding@, linking, typing, flying),
{
    let cancel_link = linking && p.escape;
    if typing {
        return KeyActions { cancel_link, open_add: false, scale_handle: false, command: Command::Nothing };
    }
    let cmd = p.command && !flying;
    let bound = String::from_str(delete_binding);
    let delete_name = String::from_str("Delete");
    let delete = p.delete || (bound == delete_name && p.backspace);
    let command = if cmd && p.new_dupe {
        Command::NewDupe { baseplate: p.shift }
    } else if cmd && p.undo && p.shift {
        Command::Redo
    } else if cmd && p.undo {
        Command::Undo
    } else if cmd && p.redo {
        Command::Redo
    } else if cmd && p.copy {
        Command::Copy
    } else if cmd && p.paste {
        Command::Paste
    } else if cmd && p.duplicate {
        Command::Duplicate
    } else if cmd && p.save && p.shift {
        Command::SaveAs
    } else if cmd && p.save {
        Command::Save
    } else if cmd && p.open {
        Command::Open
    } else if cmd && p.select_all {
        Command::SelectAll
    } else if delete {
        Command::Delete
    } else if p.deselect {
        Command::Deselect
    } else if !cmd && p.move_handle {
        Command::MoveHandle
    } else if !cmd && p.rotate_handle {
        Command::RotateHandle
    } else if !cmd && p.frame {
        Command::Frame
    } else {
        Command::Nothing
    };
    KeyActions { cancel_link, open_add: !cmd && p.add, scale_handle: !cmd && p.scale_handle, command }
}

/// The commands that need Ctrl.
pub open spec fn needs_command_key(c: Command) -> bool {
    match c {
        Command::NewDupe { .. } | Command::Undo | Command::Redo | Command::Copy | Command::Paste
        | Command::Duplicate | Command::SaveAs | Command::Save | Command::Open
        | Command::SelectAll => true,
        _ => false,
    }
}

/// While the camera flies, or Ctrl is not held, no Ctrl command runs; while
/// a text field has the keyboard, nothing runs but giving up a link.
pub proof fn lemma_keys_guarded(p: Pressed, delete_binding: Seq<char>, linking: bool, typing: bool, flying: bool)
    ensures
        (flying || !p.command) ==> !needs_command_key(
            actions_of(p, delete_binding, linking, typing, flying).command,
        ),
        typing ==> actions_of(p, delete_binding, linking, typing, flying) == (KeyActions {
            cancel_link: linking && p.escape,
            open_add: false,
            scale_handle: false,
            command: Command::Nothing,
        }),
        !typing && !flying && p.command && p.undo && !p.new_dupe ==> actions_of(
            p,
            delete_binding,
            linking,
            typing,
            flying,
        ).command == if p.shift {
            Command::Redo
        } else {
            Command::Undo
        },
{
}

/// With Ctrl held, the camera at rest and no text field focused, the first
/// Ctrl shortcut pressed in this order wins: New, Undo (Redo with Shift),
/// Redo, Copy, Paste, Duplicate, Save (Save As with Shift), Open, Select
/// all.
pub proof fn lemma_ctrl_shortcuts(p: Pressed, delete_binding: Seq<char>, linking: bool)
    requires
        p.command,
    ensures
        p.new_dupe ==> actions_of(p, delete_binding, linking, false, false).command == (Command::NewDupe {
            baseplate: p.shift,
        }),
        !p.new_dupe && p.undo ==> actions_of(p, delete_binding, linking, false, false).command == if p.shift {
            Command::Redo
        } else {
            Command::Undo
        },
        !p.new_dupe && !p.undo && p.redo ==> actions_of(p, delete_binding, linking, false, false).command
            == Command::Redo,
        !p.new_dupe && !p.undo && !p.redo && p.copy ==> actions_of(p, delete_binding, linking, false, false).command
            == Command::Copy,
        !p.new_dupe && !p.undo && !p.redo && !p.copy && p.paste ==> actions_of(
            p,
            delete_binding,
            linking,
            false,
            false,
        ).command == Command::Paste,
        !p.new_dupe && !p.undo && !p.redo && !p.copy && !p.paste && p.duplicate ==> actions_of(
            p,
            delete_binding,
            linking,
            false,
            false,
        ).command == Command::Duplicate,
        !p.new_dupe && !p.undo && !p.redo && !p.copy && !p.paste && !p.duplicate && p.save ==> actions_of(
            p,
            delete_binding,
            linking,
            false,
            false,
        ).command == if p.shift {
            Command::SaveAs
        } else {
            Command::Save
        },
        !p.new_dupe && !p.undo && !p.redo && !p.copy && !p.paste && !p.duplicate && !p.save && p.open
            ==> actions_of(p, delete_binding, linking, false, false).command == Command::Open,
        !p.new_dupe && !p.undo && !p.redo && !p.copy && !p.paste && !p.duplicate && !p.save && !p.open
            && p.select_all ==> actions_of(p, delete_binding, linking, false, false).command
            == Command::SelectAll,
{
}

/// Without Ctrl (or while the camera flies), and no text field focused, the
/// plain keys run in this order: Delete (Backspace too when the delete key
/// is bound to "Delete"), Deselect, then the move and rotate gizmos, then
/// Frame; the Add key opens the Add window and the scale key picks the
/// scale gizmo alongside.
pub proof fn lemma_plain_keys(p: Pressed, delete_binding: Seq<char>, linking: bool, flying: bool)
    requires
        !p.command || flying,
    ensures
        p.delete || (delete_binding == "Delete"@ && p.backspace) ==> actions_of(
            p,
            delete_binding,
            linking,
            false,
            flying,
        ).command == Command::Delete,
        !p.delete && !(delete_binding == "Delete"@ && p.backspace) && p.deselect ==> actions_of(
            p,
            delete_binding,
            linking,
            false,
            flying,
        ).command == Command::Deselect,
        !p.delete && !(delete_binding == "Delete"@ && p.backspace) && !p.deselect && p.move_handle
            ==> actions_of(p, delete_binding, linking, false, flying).command == Command::MoveHandle,
        !p.delete && !(delete_binding == "Delete"@ && p.backspace) && !p.deselect && !p.move_handle
            && p.rotate_handle ==> actions_of(p, delete_binding, linking, false, flying).command
            == Command::RotateHandle,
        !p.delete && !(delete_binding == "Delete"@ && p.backspace) && !p.deselect && !p.move_handle
            && !p.rotate_handle && p.frame ==> actions_of(p, delete_binding, linking, false, flying).command
            == Command::Frame,
        actions_of(p, delete_binding, linking, false, flying).open_add == p.add,
        actions_of(p, delete_binding, linking, false, flying).scale_handle == p.scale_handle,
        actions_of(p, delete_binding, linking, false, flying).cancel_link == (linking && p.escape),
{
}

/// Each command comes only from its own key: Save from the save key
/// without Shift, Save As from it with Shift, Open from the open key, each
/// with Ctrl held while the camera rests and no text field is focused.
pub proof fn lemma_commands_come_from_their_keys(
    p: Pressed,
    delete_binding: Seq<char>,
    linking: bool,
    typing: bool,
    flying: bool,
)
    ensures
        actions_of(p, delete_binding, linking, typing, flying).command == Command::Save ==> p.save && !p.shift
            && p.command && !flying && !typing,
        actions_of(p, delete_binding, linking, typing, flying).command == Command::SaveAs ==> p.save && p.shift
            && p.command && !flying && !typing,
        actions_of(p, delete_binding, linking, typing, flying).command == Command::Open ==> p.open && p.command
            && !flying && !typing,
        actions_of(p, delete_binding, linking, typing, flying).command == Command::Copy ==> p.copy && p.command
            && !flying && !typing,
        actions_of(p, delete_binding, linking, typing, flying).command == Command::Paste ==> p.paste
            && p.command && !flying && !typing,
        actions_of(p, delete_binding, linking, typing, flying).command == Command::SelectAll ==> p.select_all
            && p.command && !flying && !typing,
        actions_of(p, delete_binding, linking, typing, flying).command == Command::Undo ==> p.undo && !p.shift
            && p.command && !flying && !typing,
        actions_of(p, delete_binding, linking, typing, flying).command == Command::Duplicate ==> p.duplicate
            && p.command && !flying && !typing,
{
}

/// What one frame of Settings > Keys does: the slot still waiting for a
/// key, and the key bound to a slot, if any.
#[derive(Debug)]
pub struct CaptureStep {
    pub capturing: Option<usize>,
    pub bind: Option<(usize, String)>,
}

/// One frame of Settings > Keys: `capturing` is the slot waiting for a key,
/// `heard` the name of a key pressed this frame, and `clicked` the slot
/// whose button was clicked. A key heard while a slot waits is bound to it,
/// unless it is Escape, which leaves the capture binding nothing; either
/// way the wait ends. A clicked slot starts waiting.
pub fn key_capture(capturing: Option<usize>, heard: Option<&str>, clicked: Option<usize>) -> (r: CaptureStep)
    ensures
        r.capturing == match clicked {
            Some(n) => Some(n),
            None => if capturing is Some && heard is Some { None } else { capturing },
        },
        match (capturing, heard) {
            (Some(n), Some(key)) => if key@ == "Escape"@ {
                r.bind is None
            } else {
                r.bind matches Some((slot, name)) && slot == n && name@ == key@
            },
            _ => r.bind is None,
        },
{
    let mut bind: Option<(usize, String)> = None;
    let mut next = capturing;
    if let Some(n) = capturing {
        if let Some(key) = heard {
            let k = String::from_str(key);
            let escape = String::from_str("Escape");
            if k != escape {
                bind = Some((n, k));
            }
            next = None;
        }
    }
    if let Some(n) = clicked {
        next = Some(n);
    }
    CaptureStep { capturing: next, bind }
}

/// The text on a slot's button: "press a key" while it waits, else its key,
/// with "Ctrl+" before it when the command needs Ctrl.
pub fn slot_label(capturing: Option<usize>, slot: usize, with_ctrl: bool, name: &str) -> (r: String)
    ensures
        r@ == if capturing == Some(slot) {
            "press a key"@
        } else if with_ctrl {
            "Ctrl+"@ + name@
        } else {
            name@
        },
{
    if capturing == Some(slot) {
        String::from_str("press a key")
    } else if with_ctrl {
        let mut s = String::from_str("Ctrl+");
        s.append(name);
        s
    } else {
        String::from_str(name)
    }
}

} // verus!
