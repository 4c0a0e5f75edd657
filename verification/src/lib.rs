pub mod char_ext;
pub mod cursor;
pub mod cursor_set;
pub mod drawer;
pub mod editor_event;
pub mod highlight;
pub mod layout;
pub mod line_numbers;
pub mod regex;
pub mod selection;
pub mod segment;
pub mod sparse_set;
pub mod str_ext;
pub mod text;
pub mod video;
