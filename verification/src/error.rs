//! Why a rewrite is refused.

use vstd::prelude::*;

verus! {

/// The one reason to refuse a pattern: it holds an embedded construct where
/// it has to be decomposed.
#[derive(Clone, Copy, Debug, PartialEq, Eq)]
pub struct UnsupportedPattern;

/// The two ways in which the engine refuses a decorated expression. Nothing
/// is rewritten when either is reported.
#[derive(Clone, Copy, Debug, PartialEq, Eq)]
pub enum RewriteError {
    /// The decorated construct is not a match expression.
    WrongConstruct,
    /// The pattern of the arm with this index is an [`UnsupportedPattern`].
    UnsupportedPattern { arm: usize },
}

impl RewriteError {
    /// The text reported to the user for this error.
    pub open spec fn message_text(self) -> Seq<char> {
        match self {
            RewriteError::WrongConstruct =>
                "#[smart_pat_bindings] can only be used on match expression"@,
            RewriteError::UnsupportedPattern { .. } =>
                "#[smart_pat_bindings] cannot process macro in match"@,
        }
    }

    /// The text reported to the user for this error.
    pub fn message(&self) -> (text: String)
        ensures
            text@ == self.message_text(),
    {
        match self {
            RewriteError::WrongConstruct =>
                "#[smart_pat_bindings] can only be used on match expression".to_owned(),
            RewriteError::UnsupportedPattern { .. } =>
                "#[smart_pat_bindings] cannot process macro in match".to_owned(),
        }
    }
}

} // verus!
