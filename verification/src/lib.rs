//! A formatter for line-oriented assembly sources: directives, labels,
//! comma-separated operands, `#` comments and string literals.

pub mod align;
pub mod chunk;
pub mod compile;
pub mod formatter;
pub mod indent;
pub mod layout_laws;
pub mod line;
pub mod section;
pub mod text;
pub mod token;
pub mod token_laws;
