use code_editor::editor_event::{
    editor_action, Edit, EditorAction, EditorEvent, EditorKey, Modifiers, TextPoint, Zoom,
};

fn plain() -> Modifiers {
    Modifiers { shift: false, control: false, logo: false }
}

fn none() -> EditorAction {
    EditorAction {
        edit: Edit::Nothing,
        show_caret: None,
        reset_caret_blink: false,
        take_key_focus: false,
        hover_text_cursor: false,
        end_selection_scroll: false,
        scroll_with_finger: false,
        forget_last_move: false,
        remember_move: None,
        keep_cursor_in_view: false,
        redraw_view: false,
        redraw_document: false,
        zoom: Zoom::Stay,
    }
}

fn key(key: EditorKey, modifiers: Modifiers) -> EditorEvent {
    EditorEvent::KeyDown { key, modifiers }
}

#[test]
fn arrow_keys_move_the_carets_and_keep_them_in_view() {
    let shift = Modifiers { shift: true, ..plain() };
    assert_eq!(
        editor_action(key(EditorKey::ArrowLeft, shift), true, None),
        EditorAction {
            edit: Edit::MoveLeft(true),
            reset_caret_blink: true,
            keep_cursor_in_view: true,
            redraw_view: true,
            ..none()
        }
    );
    assert_eq!(editor_action(key(EditorKey::ArrowDown, plain()), true, None).edit, Edit::MoveDown(false));
}

#[test]
fn without_a_session_keys_only_restart_the_blink() {
    assert_eq!(
        editor_action(key(EditorKey::Return, plain()), false, None),
        EditorAction { reset_caret_blink: true, ..none() }
    );
}

#[test]
fn editing_keys_redraw_every_view_of_the_document() {
    let action = editor_action(key(EditorKey::Backspace, plain()), true, None);
    assert_eq!(action.edit, Edit::Backspace);
    assert!(action.redraw_document && action.keep_cursor_in_view && !action.redraw_view);
    assert_eq!(editor_action(EditorEvent::TextInput, true, None).edit, Edit::InsertText);
}

#[test]
fn undo_and_redo_need_control_or_logo() {
    let control = Modifiers { control: true, ..plain() };
    let logo_shift = Modifiers { logo: true, shift: true, ..plain() };
    let undo = editor_action(key(EditorKey::KeyZ, control), true, None);
    assert_eq!(undo.edit, Edit::Undo);
    assert!(undo.redraw_document && !undo.keep_cursor_in_view);
    assert_eq!(editor_action(key(EditorKey::KeyZ, logo_shift), true, None).edit, Edit::Redo);
    assert_eq!(editor_action(key(EditorKey::KeyZ, plain()), true, None), none());
}

#[test]
fn finger_down_places_or_adds_a_caret() {
    let point = TextPoint { line: 2, column: 5 };
    let control = Modifiers { control: true, ..plain() };
    let shift = Modifiers { shift: true, ..plain() };
    let added = editor_action(EditorEvent::FingerDown { point, modifiers: control }, true, None);
    assert_eq!(added.edit, Edit::AddCursor(point));
    assert!(added.take_key_focus && added.forget_last_move && added.redraw_view);
    assert_eq!(
        editor_action(EditorEvent::FingerDown { point, modifiers: shift }, true, None).edit,
        Edit::MoveCursorsTo(point, true)
    );
}

#[test]
fn finger_moves_select_only_to_a_new_place() {
    let point = TextPoint { line: 1, column: 0 };
    let moved = editor_action(EditorEvent::FingerMove { point }, true, None);
    assert_eq!(moved.edit, Edit::MoveCursorsTo(point, true));
    assert_eq!(moved.remember_move, Some(point));
    assert!(moved.scroll_with_finger);
    assert_eq!(
        editor_action(EditorEvent::FingerMove { point }, true, Some(point)),
        EditorAction { reset_caret_blink: true, ..none() }
    );
}

#[test]
fn alt_zooms_out_and_back_in() {
    assert_eq!(editor_action(key(EditorKey::Alt, plain()), false, None).zoom, Zoom::Out);
    assert_eq!(editor_action(EditorEvent::KeyUp { key: EditorKey::Alt }, false, None).zoom, Zoom::In);
    assert_eq!(editor_action(EditorEvent::KeyUp { key: EditorKey::Return }, true, None), none());
}

#[test]
fn copy_answers_with_the_selection_or_nothing() {
    assert_eq!(editor_action(EditorEvent::TextCopy, true, None).edit, Edit::CopySelection);
    assert_eq!(editor_action(EditorEvent::TextCopy, false, None).edit, Edit::CopyNothing);
}

#[test]
fn caret_blinks_and_pointer_events() {
    assert_eq!(editor_action(EditorEvent::CaretBlink { caret_shown: true }, true, None).show_caret, Some(false));
    assert_eq!(editor_action(EditorEvent::FingerUp, true, None).end_selection_scroll, true);
    assert_eq!(editor_action(EditorEvent::FingerHover, true, None).hover_text_cursor, true);
    assert_eq!(editor_action(EditorEvent::Trigger, false, None).edit, Edit::ScrollSelection);
    assert_eq!(editor_action(EditorEvent::Other, true, None), none());
}
