use vstd::prelude::*;

verus! {

/// A place in the text, by line and column.
#[derive(Clone, Copy, Debug, PartialEq, Eq, Structural)]
pub struct TextPoint {
    pub line: usize,
    pub column: usize,
}

/// The modifier keys held with a key or a press.
#[derive(Clone, Copy, Debug, PartialEq, Eq, Structural)]
pub struct Modifiers {
    pub shift: bool,
    pub control: bool,
    pub logo: bool,
}

/// The keys the editor reacts to.
#[derive(Clone, Copy, Debug, PartialEq, Eq, Structural)]
pub enum EditorKey {
    ArrowLeft,
    ArrowRight,
    ArrowUp,
    ArrowDown,
    Backspace,
    KeyZ,
    Alt,
    Return,
    Other,
}

/// What happens to the editor: its caret blink timer fires (the caret being
/// shown or not), or the user acts on it. Finger positions are already
/// turned into places in the text.
#[derive(Clone, Copy, Debug, PartialEq, Eq, Structural)]
pub enum EditorEvent {
    CaretBlink { caret_shown: bool },
    Trigger,
    FingerDown { point: TextPoint, modifiers: Modifiers },
    FingerUp,
    FingerHover,
    FingerMove { point: TextPoint },
    KeyDown { key: EditorKey, modifiers: Modifiers },
    KeyUp { key: EditorKey },
    TextCopy,
    TextInput,
    Other,
}

/// What is asked of the editor's state.
#[derive(Clone, Copy, Debug, PartialEq, Eq, Structural)]
pub enum Edit {
    Nothing,
    /// Scroll the selection along while a finger holds it past the view.
    ScrollSelection,
    AddCursor(TextPoint),
    /// Move the carets to a place, selecting when `true`.
    MoveCursorsTo(TextPoint, bool),
    MoveLeft(bool),
    MoveRight(bool),
    MoveUp(bool),
    MoveDown(bool),
    Backspace,
    Undo,
    Redo,
    Newline,
    InsertText,
    /// Answer a copy with the selected text.
    CopySelection,
    /// Answer a copy with nothing: no session is open.
    CopyNothing,
}

/// A zoom animation to start.
#[derive(Clone, Copy, Debug, PartialEq, Eq, Structural)]
pub enum Zoom {
    /// No zoom animation.
    Stay,
    Out,
    In,
}

/// How the editor reacts to an event.
#[derive(Clone, Copy, Debug, PartialEq, Eq, Structural)]
pub struct EditorAction {
    pub edit: Edit,
    /// Whether the caret is shown from now on, when the blink timer fired.
    pub show_caret: Option<bool>,
    pub reset_caret_blink: bool,
    /// Take the key focus and show the text cursor while the finger is down.
    pub take_key_focus: bool,
    /// Show the text cursor while hovering.
    pub hover_text_cursor: bool,
    pub end_selection_scroll: bool,
    /// Scroll the selection along as the finger moves past the view.
    pub scroll_with_finger: bool,
    /// Forget where the finger last moved to.
    pub forget_last_move: bool,
    /// Remember this place as where the finger last moved to.
    pub remember_move: Option<TextPoint>,
    pub keep_cursor_in_view: bool,
    pub redraw_view: bool,
    /// Redraw every view of the document.
    pub redraw_document: bool,
    pub zoom: Zoom,
}

/// No reaction.
pub open spec fn no_action() -> EditorAction {
    EditorAction {
        edit: Edit::Nothing,
        show_caret: None,
        reset_caret_blink: false,
        take_key_focus: false,
        hover_text_cursor: false,
        end_selection_scroll: false,
        scroll_with_finger: false,
        forget_last_move: false,
        remember_move: None,
        keep_cursor_in_view: false,
        redraw_view: false,
        redraw_document: false,
        zoom: Zoom::Stay,
    }
}

/// A key press that changes the carets or the text: the caret blink starts
/// over, and with a session the edit is made and the carets are kept in
/// view; a move redraws the view, a change of the text every view of the
/// document.
pub open spec fn key_edit(has_session: bool, edit: Edit, changes_text: bool) -> EditorAction {
    EditorAction {
        edit: if has_session {
            edit
        } else {
            Edit::Nothing
        },
        reset_caret_blink: true,
        keep_cursor_in_view: has_session,
        redraw_view: has_session && !changes_text,
        redraw_document: has_session && changes_text,
        ..no_action()
    }
}

/// How the editor reacts to `event`, with a session open or not, the finger
/// having last moved to `last_move`.
pub open spec fn spec_editor_action(event: EditorEvent, has_session: bool, last_move: Option<TextPoint>) -> EditorAction {
    match event {
        EditorEvent::CaretBlink { caret_shown } => EditorAction { show_caret: Some(!caret_shown), ..no_action() },
        EditorEvent::Trigger => EditorAction { edit: Edit::ScrollSelection, ..no_action() },
        EditorEvent::FingerDown { point, modifiers } => EditorAction {
            edit: if !has_session {
                Edit::Nothing
            } else if modifiers.control {
                Edit::AddCursor(point)
            } else {
                Edit::MoveCursorsTo(point, modifiers.shift)
            },
            reset_caret_blink: true,
            take_key_focus: true,
            forget_last_move: true,
            redraw_view: has_session,
            ..no_action()
        },
        EditorEvent::FingerUp => EditorAction { end_selection_scroll: true, ..no_action() },
        EditorEvent::FingerHover => EditorAction { hover_text_cursor: true, ..no_action() },
        EditorEvent::FingerMove { point } => {
            let moves = has_session && last_move != Some(point);
            EditorAction {
                edit: if moves {
                    Edit::MoveCursorsTo(point, true)
                } else {
                    Edit::Nothing
                },
                reset_caret_blink: true,
                remember_move: if moves {
                    Some(point)
                } else {
                    None
                },
                scroll_with_finger: moves,
                redraw_view: moves,
                ..no_action()
            }
        },
        EditorEvent::KeyDown { key, modifiers } => match key {
            EditorKey::ArrowLeft => key_edit(has_session, Edit::MoveLeft(modifiers.shift), false),
            EditorKey::ArrowRight => key_edit(has_session, Edit::MoveRight(modifiers.shift), false),
            EditorKey::ArrowUp => key_edit(has_session, Edit::MoveUp(modifiers.shift), false),
            EditorKey::ArrowDown => key_edit(has_session, Edit::MoveDown(modifiers.shift), false),
            EditorKey::Backspace => key_edit(has_session, Edit::Backspace, true),
            EditorKey::KeyZ => if modifiers.control || modifiers.logo {
                EditorAction {
                    keep_cursor_in_view: false,
                    ..key_edit(
                        has_session,
                        if modifiers.shift {
                            Edit::Redo
                        } else {
                            Edit::Undo
                        },
                        true,
                    )
                }
            } else {
                no_action()
            },
            EditorKey::Alt => EditorAction { zoom: Zoom::Out, ..no_action() },
            EditorKey::Return => key_edit(has_session, Edit::Newline, true),
            EditorKey::Other => no_action(),
        },
        EditorEvent::KeyUp { key } => match key {
            EditorKey::Alt => EditorAction { zoom: Zoom::In, ..no_action() },
            _ => no_action(),
        },
        EditorEvent::TextCopy => EditorAction {
            edit: if has_session {
                Edit::CopySelection
            } else {
                Edit::CopyNothing
            },
            ..no_action()
        },
        EditorEvent::TextInput => key_edit(has_session, Edit::InsertText, true),
        EditorEvent::Other => no_action(),
    }
}

/// Arrow keys move the carets, extending the selection exactly when shift is
/// held, and keep them in view; with a session the view is redrawn.
pub proof fn lemma_arrow_keys(modifiers: Modifiers, last_move: Option<TextPoint>)
    ensures
        spec_editor_action(EditorEvent::KeyDown { key: EditorKey::ArrowLeft, modifiers }, true, last_move).edit
            == Edit::MoveLeft(modifiers.shift),
        spec_editor_action(EditorEvent::KeyDown { key: EditorKey::ArrowRight, modifiers }, true, last_move).edit
            == Edit::MoveRight(modifiers.shift),
        spec_editor_action(EditorEvent::KeyDown { key: EditorKey::ArrowUp, modifiers }, true, last_move).edit
            == Edit::MoveUp(modifiers.shift),
        spec_editor_action(EditorEvent::KeyDown { key: EditorKey::ArrowDown, modifiers }, true, last_move).edit
            == Edit::MoveDown(modifiers.shift),
        forall|key: EditorKey|
            key == EditorKey::ArrowLeft || key == EditorKey::ArrowRight || key == EditorKey::ArrowUp || key
                == EditorKey::ArrowDown ==> {
                let a = #[trigger] spec_editor_action(EditorEvent::KeyDown { key, modifiers }, true, last_move);
                &&& a.reset_caret_blink
                &&& a.keep_cursor_in_view
                &&& a.redraw_view
                &&& !a.redraw_document
            },
{
}

/// Keys that change the text (backspace, return, typed text) restart the
/// caret blink and, with a session, make their edit, keep the carets in view
/// and redraw every view of the document.
pub proof fn lemma_text_edits(modifiers: Modifiers, last_move: Option<TextPoint>)
    ensures
        spec_editor_action(EditorEvent::KeyDown { key: EditorKey::Backspace, modifiers }, true, last_move).edit
            == Edit::Backspace,
        spec_editor_action(EditorEvent::KeyDown { key: EditorKey::Return, modifiers }, true, last_move).edit
            == Edit::Newline,
        spec_editor_action(EditorEvent::TextInput, true, last_move).edit == Edit::InsertText,
        forall|event: EditorEvent|
            event == EditorEvent::TextInput || event == (EditorEvent::KeyDown { key: EditorKey::Backspace, modifiers })
                || event == (EditorEvent::KeyDown { key: EditorKey::Return, modifiers }) ==> {
                let a = #[trigger] spec_editor_action(event, true, last_move);
                &&& a.reset_caret_blink
                &&& a.keep_cursor_in_view
                &&& a.redraw_document
            },
{
}

/// Z with control or logo undoes, or redoes with shift too, and redraws the
/// document; without control or logo it does nothing.
pub proof fn lemma_undo_redo(modifiers: Modifiers, has_session: bool, last_move: Option<TextPoint>)
    ensures
        ({
            let a = spec_editor_action(EditorEvent::KeyDown { key: EditorKey::KeyZ, modifiers }, has_session, last_move);
            &&& (modifiers.control || modifiers.logo) && has_session ==> a.edit == (if modifiers.shift {
                Edit::Redo
            } else {
                Edit::Undo
            }) && a.redraw_document
            &&& !(modifiers.control || modifiers.logo) ==> a == no_action()
        }),
{
}

/// A finger press takes the key focus and forgets the last move; with a
/// session it adds a caret there with control, else moves the carets there,
/// selecting with shift.
pub proof fn lemma_finger_down(point: TextPoint, modifiers: Modifiers, has_session: bool, last_move: Option<TextPoint>)
    ensures
        ({
            let a = spec_editor_action(EditorEvent::FingerDown { point, modifiers }, has_session, last_move);
            &&& a.take_key_focus && a.forget_last_move && a.reset_caret_blink
            &&& has_session && modifiers.control ==> a.edit == Edit::AddCursor(point)
            &&& has_session && !modifiers.control ==> a.edit == Edit::MoveCursorsTo(point, modifiers.shift)
            &&& !has_session ==> a.edit == Edit::Nothing
        }),
{
}

/// A finger move selects up to where it is, and remembers it, only when it
/// moved somewhere other than last time and a session is open.
pub proof fn lemma_finger_move(point: TextPoint, has_session: bool, last_move: Option<TextPoint>)
    ensures
        ({
            let a = spec_editor_action(EditorEvent::FingerMove { point }, has_session, last_move);
            let moves = has_session && last_move != Some(point);
            &&& a.reset_caret_blink
            &&& moves ==> a.edit == Edit::MoveCursorsTo(point, true) && a.remember_move == Some(point)
                && a.redraw_view && a.scroll_with_finger
            &&& !moves ==> a.edit == Edit::Nothing && a.remember_move is None && !a.redraw_view
        }),
{
}

/// Without a session nothing is edited: the only edits asked for are to
/// scroll the selection and to answer a copy with nothing.
pub proof fn lemma_no_session(event: EditorEvent, last_move: Option<TextPoint>)
    ensures
        ({
            let e = spec_editor_action(event, false, last_move).edit;
            e == Edit::Nothing || e == Edit::ScrollSelection || e == Edit::CopyNothing
        }),
        spec_editor_action(EditorEvent::TextCopy, false, last_move).edit == Edit::CopyNothing,
        spec_editor_action(EditorEvent::TextCopy, true, last_move).edit == Edit::CopySelection,
{
}

/// Alt zooms out while held and back in when released; the caret blink
/// timer flips whether the caret is shown.
pub proof fn lemma_zoom_and_blink(modifiers: Modifiers, has_session: bool, last_move: Option<TextPoint>, shown: bool)
    ensures
        spec_editor_action(EditorEvent::KeyDown { key: EditorKey::Alt, modifiers }, has_session, last_move).zoom
            == Zoom::Out,
        spec_editor_action(EditorEvent::KeyUp { key: EditorKey::Alt }, has_session, last_move).zoom == Zoom::In,
        spec_editor_action(EditorEvent::CaretBlink { caret_shown: shown }, has_session, last_move).show_caret == Some(
            !shown,
        ),
{
}

fn nothing() -> (a: EditorAction)
    ensures
        a == no_action(),
{
    EditorAction {
        edit: Edit::Nothing,
        show_caret: None,
        reset_caret_blink: false,
        take_key_focus: false,
        hover_text_cursor: false,
        end_selection_scroll: false,
        scroll_with_finger: false,
        forget_last_move: false,
        remember_move: None,
        keep_cursor_in_view: false,
        redraw_view: false,
        redraw_document: false,
        zoom: Zoom::Stay,
    }
}

fn edit_by_key(has_session: bool, edit: Edit, changes_text: bool) -> (a: EditorAction)
    ensures
        a == key_edit(has_session, edit, changes_text),
{
    EditorAction {
        edit: if has_session {
            edit
        } else {
            Edit::Nothing
        },
        reset_caret_blink: true,
        keep_cursor_in_view: has_session,
        redraw_view: has_session && !changes_text,
        redraw_document: has_session && changes_text,
        ..nothing()
    }
}

/// Whether the finger moved to a place other than the last one.
fn moved_elsewhere(last_move: Option<TextPoint>, point: TextPoint) -> (b: bool)
    ensures
        b == (last_move != Some(point)),
{
    match last_move {
        Some(last) => last.line != point.line || last.column != point.column,
        None => true,
    }
}

/// How the editor reacts to `event`, with a session open or not, the finger
/// having last moved to `last_move`: which edit it asks of its state, and
/// what it does to the caret, the focus, the cursor, the scrolling, the zoom
/// and its views.
pub fn editor_action(event: EditorEvent, has_session: bool, last_move: Option<TextPoint>) -> (a: EditorAction)
    ensures
        a == spec_editor_action(event, has_session, last_move),
{
    match event {
        EditorEvent::CaretBlink { caret_shown } => EditorAction { show_caret: Some(!caret_shown), ..nothing() },
        EditorEvent::Trigger => EditorAction { edit: Edit::ScrollSelection, ..nothing() },
        EditorEvent::FingerDown { point, modifiers } => EditorAction {
            edit: if !has_session {
                Edit::Nothing
            } else if modifiers.control {
                Edit::AddCursor(point)
            } else {
                Edit::MoveCursorsTo(point, modifiers.shift)
            },
            reset_caret_blink: true,
            take_key_focus: true,
            forget_last_move: true,
            redraw_view: has_session,
            ..nothing()
        },
        EditorEvent::FingerUp => EditorAction { end_selection_scroll: true, ..nothing() },
        EditorEvent::FingerHover => EditorAction { hover_text_cursor: true, ..nothing() },
        EditorEvent::FingerMove { point } => {
            let moves = has_session && moved_elsewhere(last_move, point);
            EditorAction {
                edit: if moves {
                    Edit::MoveCursorsTo(point, true)
                } else {
                    Edit::Nothing
                },
                reset_caret_blink: true,
                remember_move: if moves {
                    Some(point)
                } else {
                    None
                },
                scroll_with_finger: moves,
                redraw_view: moves,
                ..nothing()
            }
        },
        EditorEvent::KeyDown { key, modifiers } => match key {
            EditorKey::ArrowLeft => edit_by_key(has_session, Edit::MoveLeft(modifiers.shift), false),
            EditorKey::ArrowRight => edit_by_key(has_session, Edit::MoveRight(modifiers.shift), false),
            EditorKey::ArrowUp => edit_by_key(has_session, Edit::MoveUp(modifiers.shift), false),
            EditorKey::ArrowDown => edit_by_key(has_session, Edit::MoveDown(modifiers.shift), false),
            EditorKey::Backspace => edit_by_key(has_session, Edit::Backspace, true),
            EditorKey::KeyZ => if modifiers.control || modifiers.logo {
                let edit = if modifiers.shift {
                    Edit::Redo
                } else {
                    Edit::Undo
                };
                EditorAction { keep_cursor_in_view: false, ..edit_by_key(has_session, edit, true) }
            } else {
                nothing()
            },
            EditorKey::Alt => EditorAction { zoom: Zoom::Out, ..nothing() },
            EditorKey::Return => edit_by_key(has_session, Edit::Newline, true),
            EditorKey::Other => nothing(),
        },
        EditorEvent::KeyUp { key } => match key {
            EditorKey::Alt => EditorAction { zoom: Zoom::In, ..nothing() },
            _ => nothing(),
        },
        EditorEvent::TextCopy => EditorAction {
            edit: if has_session {
                Edit::CopySelection
            } else {
                Edit::CopyNothing
            },
            ..nothing()
        },
        EditorEvent::TextInput => edit_by_key(has_session, Edit::InsertText, true),
        EditorEvent::Other => nothing(),
    }
}

} // verus!
