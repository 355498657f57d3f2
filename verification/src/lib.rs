//! Selection-list engine for a `cut`-style utility: parsing of one-based
//! position specifications into half-open ranges, projection of records onto
//! those ranges by field, byte or character, and line/word/byte/char counting
//! for a `wc`-style utility.

pub mod counts;
pub mod digits;
pub mod extract;
pub mod positions;

pub use counts::FileInfo;
pub use counts::format_field;
pub use counts::get_file_info;
pub use extract::SelectionMode;
pub use extract::extract_bytes_from_line;
pub use extract::extract_chars_from_line;
pub use extract::extract_fields_from_record;
pub use extract::select_bytes;
pub use extract::select_fields;
pub use positions::ParseError;
pub use positions::PositionList;
pub use positions::parse_hyphenated_position;
pub use positions::parse_index;
pub use positions::parse_position;
pub use positions::parse_single_digit_position;
pub use positions::render_position_list;
