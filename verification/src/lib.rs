//! A static checker for a single-owner ownership discipline over a fragment
//! of a procedural program.
//!
//! A value has exactly one owner at a time; the owner may grant any number of
//! simultaneous shared views or exactly one exclusive view; using a value
//! after it was given away, or through a view that a conflicting operation
//! has invalidated, is an error; and a view may not be returned from a scope
//! that outlives the variable it refers to.
//!
//! The crate consumes an already-resolved, ordered sequence of structural
//! events through the [`Checker`] facade; it does not parse source
//! text itself.

use vstd::prelude::*;

mod checker;

pub use checker::checker_error_message;
pub use checker::implementation::alias_inv;
pub use checker::implementation::borrow_path;
pub use checker::implementation::borrowers_registered;
pub use checker::implementation::borrows_var;
pub use checker::implementation::escapes_origin;
pub use checker::implementation::lemma_no_dangling_alias_transitive;
pub use checker::implementation::no_dangling_alias;
pub use checker::implementation::status_borrowers;
pub use checker::implementation::value_source_admissible;
pub use checker::implementation::Borrow;
pub use checker::implementation::Origins;
pub use checker::implementation::OriginId;
pub use checker::implementation::Var;
pub use checker::implementation::VarId;
pub use checker::implementation::Vars;
pub use checker::implementation::VarStatus;
pub use checker::Checker;
pub use checker::CheckerError;
pub use checker::CheckerResult;

verus! {

/// Failure of a whole analysis run; every failure of the core engine is
/// carried in the `Borrowcheck` variant.
pub enum CheckError {
    Borrowcheck(CheckerError),
}

impl CheckError {
    /// The checker failure wrapped by this error.
    pub fn into_checker_error(self) -> (r: CheckerError)
        ensures
            self matches CheckError::Borrowcheck(e) && r == e,
    {
        match self {
            CheckError::Borrowcheck(e) => e,
        }
    }

    /// The human-readable diagnostic of the wrapped checker failure.
    pub fn message(&self) -> (r: String)
        ensures
            *self matches CheckError::Borrowcheck(e) && r@ == checker::checker_error_message(e),
    {
        match self {
            CheckError::Borrowcheck(e) => e.message(),
        }
    }
}

} // verus!
