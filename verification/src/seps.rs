//! Which bytes separate path segments.
//!
//! `/` always does. Whether `\` does depends on the platform, so every engine
//! carries a [`Seps`] value and its contract speaks of that value.

use vstd::prelude::*;

verus! {

/// The set of separator bytes.
#[derive(Debug, Clone, Copy, PartialEq, Eq, Structural)]
pub struct Seps {
    /// Whether `\` separates segments besides `/`.
    pub backslash: bool,
}

/// Calls `std::path::is_separator` on `\`. The answer differs between
/// platforms, so nothing is claimed of it.
#[verifier::external_body]
fn platform_backslash() -> (r: bool) {
    std::path::is_separator('\\')
}

impl Seps {
    /// `b` is a separator byte.
    pub open spec fn has(self, b: u8) -> bool {
        b == 0x2f || (self.backslash && b == 0x5c)
    }

    /// Only `/` separates.
    pub fn slash_only() -> (r: Self)
        ensures
            !r.backslash,
    {
        Seps { backslash: false }
    }

    /// The separators of the platform the program runs on.
    pub fn platform() -> Self {
        Seps { backslash: platform_backslash() }
    }

    /// Whether `b` is a separator byte.
    #[inline]
    pub fn is_sep(self, b: u8) -> (r: bool)
        ensures
            r == self.has(b),
    {
        b == 0x2f || (self.backslash && b == 0x5c)
    }
}

} // verus!
