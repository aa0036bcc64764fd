pub mod filter;
pub mod font;
pub mod format;
pub mod layout;
pub mod order;
pub mod rect;
pub mod text;

pub use filter::{is_single_line, Filter};
pub use format::{can_form_paragraphs, missing_line_indices, Format, Line, Paragraph, TextRegion};
pub use rect::Rect;
