use vstd::prelude::*;
use crate::diff::parse_commit_id;
use crate::external::is_oid_text;
use crate::model::{GraphError, working_copy_id};
use crate::text::{contains, occurs_in, same_text};

verus! {

/// The outcome of checking the commit id of a checkout.
pub open spec fn checkout_target_ok(id: Seq<char>, r: Result<git2::Oid, GraphError>) -> bool {
    if id == working_copy_id() {
        r matches Err(GraphError::CheckoutWorkingCopy)
    } else if !is_oid_text(id) {
        r matches Err(GraphError::InvalidId { id: i, .. }) && i@ == id
    } else {
        r is Ok
    }
}

/// Checks the commit id of a checkout and parses it.
pub fn checkout_target(id: &str) -> (r: Result<git2::Oid, GraphError>)
    ensures
        checkout_target_ok(id@, r),
{
    if same_text(id, "working-copy") {
        return Err(GraphError::CheckoutWorkingCopy);
    }
    parse_commit_id(id)
}

/// A checkout failure whose message speaks of a conflict or of a dirty
/// working tree: local changes stand in the way.
pub open spec fn blocked_by_changes(message: Seq<char>) -> bool {
    occurs_in("conflict"@, message) || occurs_in("dirty"@, message)
}

/// Classifies a failed checkout by the store's message: changes that would
/// be overwritten get their own error, anything else keeps the message.
pub fn checkout_failure(message: &str) -> (r: GraphError)
    ensures
        blocked_by_changes(message@) ==> r matches GraphError::WouldOverwrite,
        !blocked_by_changes(message@) ==> (r matches GraphError::CheckoutFailed { reason } && reason@ == message@),
{
    if contains(message, "conflict") || contains(message, "dirty") {
        GraphError::WouldOverwrite
    } else {
        GraphError::CheckoutFailed { reason: message.to_owned() }
    }
}

} // verus!
