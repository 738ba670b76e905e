//! Errors raised while turning pattern text into matchers.

use vstd::prelude::*;
use vstd::string::*;

verus! {

/// Why a set of glob patterns could not be turned into a matcher.
#[derive(Clone, Debug, PartialEq, Eq)]
pub enum PatternError {
    /// `pattern` is not valid glob syntax; `cause` is the parser's explanation.
    InvalidPattern { pattern: String, cause: String },
    /// Every pattern parsed, but the combined matcher could not be assembled.
    BuildFailed { cause: String },
}

impl PatternError {
    /// The text of the error as shown to a caller.
    pub open spec fn message_text(self) -> Seq<char> {
        match self {
            PatternError::InvalidPattern { pattern, cause } => "Invalid glob pattern '"@ + pattern@
                + "': "@ + cause@,
            PatternError::BuildFailed { cause } => "Error building pattern matcher: "@ + cause@,
        }
    }

    /// Renders the error; an invalid pattern is quoted verbatim in the text.
    pub fn message(&self) -> (text: String)
        ensures
            text@ == self.message_text(),
    {
        match self {
            PatternError::InvalidPattern { pattern, cause } => {
                let mut text = String::from_str("Invalid glob pattern '");
                text.append(pattern.as_str());
                text.append("': ");
                text.append(cause.as_str());
                text
            },
            PatternError::BuildFailed { cause } => {
                let mut text = String::from_str("Error building pattern matcher: ");
                text.append(cause.as_str());
                text
            },
        }
    }
}

/// The message of an invalid-pattern error holds the offending pattern text
/// verbatim, right behind the opening quote.
pub proof fn law_message_embeds_pattern(error: PatternError)
    requires
        error is InvalidPattern,
    ensures
        ({
            let start = "Invalid glob pattern '"@.len() as int;
            let pattern = error->pattern@;
            &&& start + pattern.len() <= error.message_text().len()
            &&& error.message_text().subrange(start, start + pattern.len()) == pattern
        }),
{
    let start = "Invalid glob pattern '"@.len() as int;
    let pattern = error->pattern@;
    assert(error.message_text().subrange(start, start + pattern.len()) =~= pattern);
}

} // verus!
