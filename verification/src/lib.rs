//! Rewrites match arms whose patterns nest bindings inside the substructure of
//! other bindings into arms that bind every name at the top level and
//! re-derive the nested names by deferred re-matches in the arm's body.
//!
//! The host grammar forbids a binding inside the substructure of another
//! binding. [`smart_pat_bindings`] takes a match expression whose arms do
//! that and gives back, for every arm, a pattern in which no binding is
//! nested in another, and the list of re-matches that bring the nested names
//! back into scope, outermost first.
//!
//! # The engine
//!
//! * [`pattern`]: the pattern tree and its mathematical view.
//! * [`erase`]: the eraser, [`erase::remove_all_bindings`]. It removes every
//!   name and keeps the shape.
//! * [`hoist`]: the hoister, [`hoist::get_toplevel_bindings_and_remove_others`].
//!   It records every binding that no other binding encloses and erases what
//!   lies below it.
//! * [`rewrite`]: the arm rewriter, [`rewrite::rewrite_arm`]. It drains the
//!   queue of recorded bindings breadth first into re-matches.
//! * [`error`]: why a rewrite is refused.
//!
//! # What is proved of it
//!
//! Every function of the engine is verified against a contract that says
//! exactly what it returns. On top of these stand the laws of the rewrite:
//!
//! * erasing twice is erasing once ([`erase::lemma_erase_idempotent`]);
//! * no name is lost or invented ([`hoist::lemma_hoist_keeps_names`],
//!   [`rewrite::lemma_rewrite_keeps_names`]);
//! * no binding is left inside another
//!   ([`hoist::lemma_hoist_is_flat`], [`rewrite::lemma_rematches_flat`]);
//! * the re-matches come breadth first
//!   ([`rewrite::lemma_rematches_breadth_first`]);
//! * the rewritten arm accepts what the arm accepted, and no re-match fails
//!   ([`semantics::lemma_hoist_accepts_same`],
//!   [`safety::lemma_rewrite_accepts_same`]);
//! * the body sees every name with the value it had
//!   ([`preservation::lemma_rewrite_binds_same`]).
//!
//! The last two speak of values, which belong to the host. [`semantics`]
//! says what accepting and binding mean for any host. They hold for the
//! patterns that [`safety::rematch_safe`] and [`preservation::well_named`]
//! describe: a binding with a substructure under an alternation is re-matched
//! whichever alternative the value came in through, and nothing guards that
//! re-match.

use crate::error::RewriteError;
use crate::rewrite::{arm_rewritten, decomposable, rewrite_arm, Arm, RewrittenArm};
use vstd::prelude::*;

pub mod erase;
pub mod error;
pub mod hoist;
pub mod pattern;
pub mod preservation;
pub mod rewrite;
pub mod safety;
pub mod semantics;

verus! {

/// The decorated expression, as far as the engine looks at it: a match with
/// its arms, or anything else.
#[derive(Debug, PartialEq, Eq)]
pub enum Expr<B> {
    Match { arms: Vec<Arm<B>> },
    Other,
}

/// The pattern of every arm is decomposable.
pub open spec fn all_decomposable<B>(arms: Seq<Arm<B>>) -> bool {
    forall|i: int| 0 <= i < arms.len() ==> decomposable((#[trigger] arms[i]).pat@)
}

/// `out` holds the arms of `arms` rewritten, one for one and in order.
pub open spec fn arms_rewritten<B>(arms: Seq<Arm<B>>, out: Seq<RewrittenArm<B>>) -> bool {
    &&& out.len() == arms.len()
    &&& forall|i: int| 0 <= i < arms.len() ==> arm_rewritten(arms[i], #[trigger] out[i])
}

/// The arm at index `arm` is the first of `arms` whose pattern is not
/// decomposable.
pub open spec fn first_unsupported<B>(arms: Seq<Arm<B>>, arm: int) -> bool {
    &&& 0 <= arm < arms.len()
    &&& !decomposable(arms[arm].pat@)
    &&& forall|i: int| 0 <= i < arm ==> decomposable((#[trigger] arms[i]).pat@)
}

/// Rewrites every arm of a match expression.
///
/// Anything but a match is refused as [`RewriteError::WrongConstruct`]. A
/// match is refused as [`RewriteError::UnsupportedPattern`] exactly when the
/// pattern of one of its arms holds an embedded construct; the error names
/// the first such arm, and no arm is handed back.
pub fn smart_pat_bindings<B>(input: Expr<B>) -> (rewritten: Result<
    Vec<RewrittenArm<B>>,
    RewriteError,
>)
    ensures
        match input {
            Expr::Match { arms } => match rewritten {
                Ok(out) => all_decomposable(arms@) && arms_rewritten(arms@, out@),
                Err(e) => (e matches RewriteError::UnsupportedPattern { arm } && first_unsupported(
                    arms@,
                    arm as int,
                )),
            },
            Expr::Other => rewritten == Err::<Vec<RewrittenArm<B>>, RewriteError>(
                RewriteError::WrongConstruct,
            ),
        },
{
    match input {
        Expr::Match { arms } => {
            let ghost given = arms@;
            let mut out: Vec<RewrittenArm<B>> = Vec::new();
            for arm in it: arms
                invariant
                    it.seq() == given,
                    input matches Expr::Match { arms: all } && all@ == given,
                    out.len() == it.index(),
                    forall|i: int|
                        0 <= i < out.len() ==> decomposable((#[trigger] given[i]).pat@),
                    forall|i: int|
                        0 <= i < out.len() ==> arm_rewritten(given[i], #[trigger] out@[i]),
            {
                match rewrite_arm(arm) {
                    Ok(done) => {
                        out.push(done);
                    },
                    Err(_) => {
                        return Err(RewriteError::UnsupportedPattern { arm: out.len() });
                    },
                }
            }
            Ok(out)
        },
        Expr::Other => Err(RewriteError::WrongConstruct),
    }
}

} // verus!
