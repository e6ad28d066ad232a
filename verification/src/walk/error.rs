//! What can go wrong in a walk.

use vstd::prelude::*;
use vstd::string::*;

verus! {

/// Why a walk was refused, or what failed on the way. A walk goes on after an
/// I/O error.
#[derive(Debug, Clone)]
pub enum WalkError {
    /// A pattern or an ignore pattern did not compile.
    InvalidPattern {
        /// The pattern that failed.
        pattern: String,
        /// The text of the pattern's error.
        reason: String,
    },
    /// An entry could not be read.
    Io {
        /// Where it happened.
        path: String,
        /// The text of the error.
        source: String,
    },
}

/// The text of an error.
pub open spec fn walk_error_text(e: WalkError) -> Seq<char> {
    match e {
        WalkError::InvalidPattern { pattern, reason } => "invalid pattern '"@ + pattern@ + "': "@
            + reason@,
        WalkError::Io { path, source } => "walker error at "@ + path@ + ": "@ + source@,
    }
}

impl WalkError {
    /// The text of the error.
    pub fn message(&self) -> (r: String)
        ensures
            r@ == walk_error_text(*self),
    {
        let mut out: String = String::new();
        proof {
            reveal_strlit("");
        }
        match self {
            WalkError::InvalidPattern { pattern, reason } => {
                out.append("invalid pattern '");
                out.append(pattern.as_str());
                out.append("': ");
                out.append(reason.as_str());
            },
            WalkError::Io { path, source } => {
                out.append("walker error at ");
                out.append(path.as_str());
                out.append(": ");
                out.append(source.as_str());
            },
        }
        assert(out@ =~= walk_error_text(*self));
        out
    }
}

} // verus!
