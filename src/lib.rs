//! A note store: memo files named by their creation time, whose first line
//! is a title carrying `[tag]` tokens, searched by regular expressions and
//! combined with a small set algebra.
pub mod entry;
pub mod error;
pub mod filename;
pub mod html;
pub mod pattern;
pub mod query;
pub mod search;
pub mod selection;
pub mod text;

pub use entry::{MatchCondition, MemoEntry};
pub use error::MemoError;
pub use filename::FileName;
pub use html::Html;
pub use query::QueryOp;
pub use search::{Memo, MemoSearch};
