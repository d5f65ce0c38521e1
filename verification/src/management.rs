use vstd::prelude::*;

use crate::ids::{ActorId, FirmId};

verus! {

/// A manager's change of a firm's production target.
#[derive(Clone, Copy, Debug, PartialEq, Eq, Structural)]
pub struct FirmManagementDecision {
    pub actor: ActorId,
    pub firm: FirmId,
    pub previous_batches: u64,
    pub target_batches: u64,
}

} // verus!
