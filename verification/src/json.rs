//! The strict JSON check, done by `serde_json`, and what it reports when a
//! text is refused.
use vstd::prelude::*;

verus! {

/// Why `serde_json` refused a text (`serde_json::error::Category`).
#[derive(Debug, Clone, Copy, PartialEq, Eq, Structural)]
pub enum ErrorCategory {
    Io,
    Syntax,
    Data,
    Eof,
}

/// What `serde_json` reports about a refused text: the one-based line and
/// column at which it stopped, the category, and its message.
#[derive(Debug)]
pub struct JsonError {
    pub line: usize,
    pub column: usize,
    pub category: ErrorCategory,
    pub message: String,
}

impl View for JsonError {
    type V = (usize, usize, ErrorCategory, Seq<char>);

    open spec fn view(&self) -> Self::V {
        (self.line, self.column, self.category, self.message@)
    }
}

/// What `serde_json::from_str::<IgnoredAny>` makes of a text: `None` when it
/// accepts it as one JSON value, otherwise the error it reports.
pub uninterp spec fn json_parse(text: Seq<char>) -> Option<(usize, usize, ErrorCategory, Seq<char>)>;

/// Whether `serde_json` accepts `text` as a single JSON value.
pub open spec fn json_valid(text: Seq<char>) -> bool {
    json_parse(text) is None
}

/// `serde_json::from_str::<IgnoredAny>`: parses `text` as one JSON value,
/// keeping nothing of it but, on failure, the error's position, category
/// and message.
#[verifier::external_body]
pub(crate) fn check_json(text: &str) -> (r: Option<JsonError>)
    ensures
        match r {
            Some(e) => json_parse(text@) == Some(e@),
            None => json_parse(text@) is None,
        },
{
    match serde_json::from_str::<serde::de::IgnoredAny>(text) {
        Ok(_) => None,
        Err(e) => Some(JsonError {
            line: e.line(),
            column: e.column(),
            category: match e.classify() {
                serde_json::error::Category::Io => ErrorCategory::Io,
                serde_json::error::Category::Syntax => ErrorCategory::Syntax,
                serde_json::error::Category::Data => ErrorCategory::Data,
                serde_json::error::Category::Eof => ErrorCategory::Eof,
            },
            message: e.to_string(),
        }),
    }
}

/// Whether `text` is one valid JSON value.
pub fn is_valid_json(text: &str) -> (r: bool)
    ensures
        r == json_valid(text@),
{
    check_json(text).is_none()
}

} // verus!
