use vstd::prelude::*;
use crate::auth::Role;

verus! {

/// What an operation learns from its surroundings: who calls, with which
/// roles, at what time, whether the ledger is paused, and how much gas the
/// call has left.
#[derive(Clone, Debug, PartialEq, Eq)]
pub struct Context {
    pub predecessor: String,
    pub roles: Vec<Role>,
    pub paused: bool,
    pub now: u32,
    pub gas_left: u64,
}

impl Context {
    /// Whether the caller holds the role.
    pub open spec fn holds(&self, role: Role) -> bool {
        self.roles@.contains(role)
    }

    /// Whether the caller holds the role.
    pub fn has_role(&self, role: Role) -> (held: bool)
        ensures
            held == self.holds(role),
    {
        let mut i: usize = 0;
        while i < self.roles.len()
            invariant
                0 <= i <= self.roles@.len(),
                forall|j: int| 0 <= j < i ==> self.roles@[j] != role,
            decreases self.roles@.len() - i,
        {
            if self.roles[i] == role {
                return true;
            }
            i += 1;
        }
        false
    }
}

} // verus!
